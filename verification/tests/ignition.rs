use beamprop::airprops::{AirProperties, AirScale, AirTable};
use beamprop::aperture::{ApertureError, Pupil};
use beamprop::blooming::Heating;
use beamprop::breakdown0d::{Focus, Gas, Kinetics, MonatomicGas};
use beamprop::breakdown_case::Setup;
use beamprop::cases::{
    run_blooming, BloomingCase, BloomingCaseError, BloomingParams, Path, PathCase,
};
use beamprop::checks::{checked_beam, check_path, BeamError, PathError, PathRequest};
use beamprop::ignition_case::{
    run_ignition, summarize, IgnitionCase, IgnitionError, IgnitionParams, Shot,
};
use beamprop::ignition_sweep::{
    run_ignition_sweep, sorted_of, transition_width_decades, IgnitionSweepCase,
    IgnitionSweepParams, SweepError,
};
use beamprop::medium::Medium;
use beamprop::optics::Optics;
use beamprop::plane::Plane;
use beamprop::propagate::PropagateError;
use beamprop::special::Gamma;
use beamprop::table::{TableError, Tabulation};
use ndarray::Array2;
use ndrustfft::{ndfft, ndifft, FftHandler};
use num_complex::Complex64;
use std::f64::consts::PI;

/// Share of the half-extent where the absorbing edge lets everything through.
const INTERIOR: f64 = 0.8;
/// Exponent of the absorbing edge.
const EDGE_POWER: f64 = 4.0;
/// The edge lets through `exp(-EDGE_STRENGTH)` at the border of the grid.
const EDGE_STRENGTH: f64 = 20.0;
/// Relative power allowed outside the interior at the start of a run.
const CONTAINMENT: f64 = 1e-9;
/// Fewest samples across a beam width.
const SAMPLES_PER_WIDTH: f64 = 4.0;

/// Scalar optics in double precision on one grid at one wavelength.
#[derive(Debug, Clone, Copy)]
struct Light {
    n: usize,
    dx: f64,
    wavelength: f64,
}

impl Light {
    fn new(n: usize, dx: f64, wavelength: f64) -> Self {
        Light { n, dx, wavelength }
    }

    fn extent(&self) -> f64 {
        self.n as f64 * self.dx
    }

    fn coord(&self, i: usize) -> f64 {
        (i as f64 - self.n as f64 / 2.0) * self.dx
    }

    fn k(&self) -> f64 {
        2.0 * PI / self.wavelength
    }

    fn critical_distance(&self) -> f64 {
        self.n as f64 * self.dx * self.dx / self.wavelength
    }

    fn transform(&self, u: &Plane<Complex64>, back: bool) -> Plane<Complex64> {
        let n = self.n;
        let handler: FftHandler<f64> = FftHandler::new(n);
        let a = Array2::from_shape_vec((n, n), u.as_slice().to_vec()).expect("a square plane");
        let mut b = Array2::zeros((n, n));
        let mut c = Array2::zeros((n, n));
        if back {
            ndifft(&a, &mut b, &handler, 1);
            ndifft(&b, &mut c, &handler, 0);
        } else {
            ndfft(&a, &mut b, &handler, 0);
            ndfft(&b, &mut c, &handler, 1);
        }
        Plane::from_vec(n, n, c.into_raw_vec_and_offset().0).expect("a square plane")
    }
}

impl Optics for Light {
    type Real = f64;

    type Complex = Complex64;

    fn zero(&self) -> f64 {
        0.0
    }

    fn is_zero(&self, x: f64) -> bool {
        x == 0.0
    }

    fn plus(&self, a: f64, b: f64) -> f64 {
        a + b
    }

    fn times(&self, a: f64, b: f64) -> f64 {
        a * b
    }

    fn ratio(&self, a: f64, b: f64) -> f64 {
        a / b
    }

    fn larger(&self, a: f64, b: f64) -> f64 {
        a.max(b)
    }

    fn smaller(&self, a: f64, b: f64) -> f64 {
        a.min(b)
    }

    fn exceeds(&self, a: f64, b: f64) -> bool {
        a > b
    }

    fn is_positive(&self, x: f64) -> bool {
        x > 0.0 && x.is_finite()
    }

    fn same_length(&self, a: f64, b: f64) -> bool {
        a == b
    }

    fn half(&self, x: f64) -> f64 {
        x / 2.0
    }

    fn spacing(&self) -> f64 {
        self.dx
    }

    fn wavelength(&self) -> f64 {
        self.wavelength
    }

    fn is_subcritical(&self, dz: f64) -> bool {
        dz <= self.critical_distance()
    }

    fn wavenumber(&self, frequency: isize) -> f64 {
        2.0 * PI * frequency as f64 / (self.n as f64 * self.dx)
    }

    fn transfer(&self, dz: f64, kx: f64, ky: f64) -> Complex64 {
        let k = self.k();
        let kz2 = k * k - (kx * kx + ky * ky);
        if kz2 >= 0.0 {
            Complex64::from_polar(1.0, dz * kz2.sqrt())
        } else {
            Complex64::new((-dz * (-kz2).sqrt()).exp(), 0.0)
        }
    }

    fn impulse(&self, dz: f64, x: isize, y: isize) -> Complex64 {
        let k = self.k();
        let (x, y) = (x as f64 * self.dx, y as f64 * self.dx);
        let prefactor =
            Complex64::from_polar(1.0, k * dz) / Complex64::new(0.0, self.wavelength * dz);
        prefactor
            * Complex64::from_polar(1.0, k * (x * x + y * y) / (2.0 * dz))
            * (self.dx * self.dx)
    }

    fn forward(&self, u: &Plane<Complex64>) -> Plane<Complex64> {
        self.transform(u, false)
    }

    fn inverse(&self, u: &Plane<Complex64>) -> Plane<Complex64> {
        self.transform(u, true)
    }

    fn product(&self, a: Complex64, b: Complex64) -> Complex64 {
        a * b
    }

    fn intensity(&self, u: Complex64) -> f64 {
        u.norm_sqr()
    }

    fn power(&self, sum: f64) -> f64 {
        sum * (self.dx * self.dx)
    }

    fn gaussian(&self, w0: f64, x: isize, y: isize) -> Complex64 {
        let (x, y) = (x as f64 * self.dx, y as f64 * self.dx);
        Complex64::new((-(x * x + y * y) / (w0 * w0)).exp(), 0.0)
    }

    fn retard(&self, u: Complex64, dn: f64, dz: f64) -> Complex64 {
        u * Complex64::from_polar(1.0, self.k() * dn * dz)
    }

    fn retard_and_decay(&self, u: Complex64, dn: f64, alpha: f64, dz: f64) -> Complex64 {
        u * Complex64::from_polar((-0.5 * alpha * dz).exp(), self.k() * dn * dz)
    }

    fn edge(&self, i: usize) -> f64 {
        let half = self.extent() / 2.0;
        let r0 = INTERIOR * half;
        let r = self.coord(i).abs();
        if r <= r0 {
            1.0
        } else {
            (-EDGE_STRENGTH * ((r - r0) / (half - r0)).powf(EDGE_POWER)).exp()
        }
    }

    fn mask(&self, u: Complex64, m: f64) -> Complex64 {
        u * m
    }

    fn absorb(&self, total: f64, before: f64, after: f64) -> f64 {
        total + (before - after)
    }

    fn phase_jump(&self, a: f64, b: f64, dz: f64) -> f64 {
        (self.k() * (b - a) * dz).abs()
    }

    fn is_aliased(&self, jump: f64) -> bool {
        jump >= PI
    }

    fn is_interior(&self, i: usize) -> bool {
        self.coord(i).abs() <= INTERIOR * (self.extent() / 2.0)
    }

    fn has_power(&self, total: f64) -> bool {
        total > 0.0
    }

    fn is_contained(&self, inside: f64, total: f64) -> bool {
        !(1.0 - inside / total > CONTAINMENT)
    }

    fn add_moment(&self, m: f64, p: f64, i: usize) -> f64 {
        m + p * self.coord(i)
    }

    fn add_spread(&self, v: f64, p: f64, i: usize, centre: f64) -> f64 {
        let d = self.coord(i) - centre;
        v + p * d * d
    }

    fn width(&self, v: f64, total: f64) -> f64 {
        2.0 * (v / total).sqrt()
    }

    fn is_resolved(&self, width: f64) -> bool {
        !(width < SAMPLES_PER_WIDTH * self.dx)
    }
}

impl PathCase for Light {
    fn default_path(&self, w0: f64) -> f64 {
        2.0 * PI * w0 * w0 / self.wavelength
    }

    fn slab(&self, path: f64, steps: usize) -> f64 {
        path / steps as f64
    }

    fn distance(&self, step: usize, dz: f64) -> f64 {
        step as f64 * dz
    }

    fn members(&self, n: usize) -> f64 {
        n as f64
    }
}

/// Fewest samples across a pupil.
const SAMPLES_ACROSS: f64 = 16.0;

impl Pupil for Light {
    fn fits(&self, n: usize, diameter: f64) -> bool {
        !(diameter > n as f64 * self.dx)
    }

    fn samples_across(&self, diameter: f64) -> f64 {
        diameter / self.dx
    }

    fn is_sampled(&self, across: f64) -> bool {
        !(across < SAMPLES_ACROSS)
    }

    fn box_low(&self, n: usize, diameter: f64) -> usize {
        (n as f64 / 2.0 - 0.5 * diameter / self.dx).floor().max(0.0) as usize
    }

    fn box_high(&self, n: usize, diameter: f64) -> usize {
        (n as f64 / 2.0 + 0.5 * diameter / self.dx).ceil() as usize
    }

    fn is_inside(&self, x: isize, y: isize, diameter: f64) -> bool {
        let (x, y) = (x as f64 * self.dx, y as f64 * self.dx);
        x * x + y * y <= 0.25 * diameter * diameter
    }

    fn coordinate(&self, x: isize) -> f64 {
        x as f64 * self.dx
    }

    fn minus(&self, a: f64, b: f64) -> f64 {
        a - b
    }

    fn count(&self, n: usize) -> f64 {
        n as f64
    }

    fn dark(&self) -> Complex64 {
        Complex64::new(0.0, 0.0)
    }

    fn superpose(&self, a: Complex64, b: Complex64) -> Complex64 {
        a + b
    }

    fn amplitude_integral(&self, sum: Complex64) -> (f64, f64) {
        let da = self.dx * self.dx;
        (sum.re * da, sum.im * da)
    }

    fn modulus(&self, u: Complex64) -> f64 {
        u.norm()
    }

    fn area_integral(&self, sum: f64) -> f64 {
        sum * (self.dx * self.dx)
    }

    fn determinant(&self, m: [[f64; 3]; 3]) -> f64 {
        m[0][0] * (m[1][1] * m[2][2] - m[1][2] * m[2][1])
            - m[0][1] * (m[1][0] * m[2][2] - m[1][2] * m[2][0])
            + m[0][2] * (m[1][0] * m[2][1] - m[1][1] * m[2][0])
    }

    fn is_singular(&self, det: f64) -> bool {
        det.abs() <= f64::MIN_POSITIVE
    }

    fn residual(&self, phase: f64, plane: (f64, f64, f64), x: f64, y: f64) -> f64 {
        phase - plane.0 - plane.1 * x - plane.2 * y
    }

    fn wavenumber_of(&self, wavelength: f64) -> f64 {
        2.0 * PI / wavelength
    }

    fn flow(&self, u: Complex64, before: Complex64, after: Complex64) -> f64 {
        (u.conj() * ((after - before) * (0.5 / self.dx))).im
    }
}

/// Least Péclet number of the convective model.
const MIN_PECLET: f64 = 100.0;
/// Largest temperature rise over the ambient temperature.
const MAX_RISE: f64 = 0.1;

impl Heating for Light {
    fn lacks_power(&self, power: f64) -> bool {
        power <= 0.0
    }

    fn is_absorption(&self, alpha: f64) -> bool {
        alpha >= 0.0 && alpha.is_finite()
    }

    fn peclet(&self, air: AirProperties<f64>, wind: f64, width: f64) -> f64 {
        air.rho * air.cp * wind * width / air.kappa_t
    }

    fn is_convective(&self, peclet: f64) -> bool {
        !(peclet < MIN_PECLET)
    }

    fn heat_coefficient(&self, alpha: f64, air: AirProperties<f64>, wind: f64) -> f64 {
        alpha / (air.rho * air.cp * wind)
    }

    fn midpoint_decay(&self, alpha: f64, dz: f64) -> f64 {
        (-0.5 * alpha * dz).exp()
    }

    fn index_drop(&self, index_coeff: f64, heat_coeff: f64, scale: f64, decay: f64) -> f64 {
        -index_coeff * heat_coeff * scale * decay
    }

    fn trapezoid(&self, cum: f64, before: f64, at: f64, dx: f64) -> f64 {
        cum + 0.5 * (before + at) * dx
    }

    fn rise(&self, heat_coeff: f64, scale: f64, cum: f64) -> f64 {
        heat_coeff * scale * cum
    }

    fn is_small(&self, rise: f64, t0: f64) -> bool {
        rise < MAX_RISE * t0
    }
}

const E_CHARGE: f64 = 1.602_176_634e-19;
const M_E: f64 = 9.109_383_701_5e-31;
const C_LIGHT: f64 = 299_792_458.0;
const EPS0: f64 = 8.854_187_812_8e-12;
const HBAR: f64 = 1.054_571_817e-34;
const P_REF: f64 = 101_325.0;
const HARTREE: f64 = 4.359_744_722_207_1e-18;
const F_ATOMIC: f64 = 5.142_206_747_63e11;
/// Largest exponent that is used.
const MAX_EXPONENT: f64 = 700.0;
/// Ion pairs that cosmic rays and the ground make, per cubic metre and second.
const ION_PAIR_PRODUCTION: f64 = 1.0e7;
/// Effective charge that an electron leaving oxygen sees.
const Z_EFF_O2: f64 = 0.53;

/// The Lanczos series of the gamma function.
#[derive(Debug, Clone, Copy, PartialEq)]
struct Lanczos;

const LANCZOS: [f64; 9] = [
    0.999_999_999_999_809_9,
    676.520_368_121_885_1,
    -1_259.139_216_722_402_8,
    771.323_428_777_653_1,
    -176.615_029_162_140_6,
    12.507_343_278_686_905,
    -0.138_571_095_265_720_12,
    9.984_369_578_019_572e-6,
    1.505_632_735_149_311_6e-7,
];

impl Gamma for Lanczos {
    type Real = f64;

    fn minus(&self, a: f64, b: f64) -> f64 {
        a - b
    }

    fn is_reflected(&self, x: f64) -> bool {
        x < 0.5
    }

    fn mirror(&self, x: f64) -> f64 {
        1.0 - x
    }

    fn log_product(&self, x: f64) -> f64 {
        (PI / (PI * x).sin()).abs().ln()
    }

    fn first_term(&self) -> f64 {
        LANCZOS[0]
    }

    fn add_term(&self, series: f64, x: f64, i: usize) -> f64 {
        series + LANCZOS[i] / (x - 1.0 + i as f64)
    }

    fn from_series(&self, x: f64, series: f64) -> f64 {
        let z = x - 1.0;
        let t = z + 7.0 + 0.5;
        0.5 * (2.0 * PI).ln() + (z + 0.5) * t.ln() - t + series.ln()
    }
}

/// The kinetics of a gas in SI units, with the reference point of the measured
/// multiphoton law: its intensity and, if it is given, its rate.
#[derive(Debug, Clone, Copy, PartialEq)]
struct Air {
    mpi_intensity: f64,
    mpi_rate: Option<f64>,
}

const AIR: Air = Air {
    mpi_intensity: 4.42e13,
    mpi_rate: None,
};

impl Air {
    /// Dry air.
    fn dry_air() -> Gas<f64> {
        Gas {
            u_ion: 12.06 * E_CHARGE,
            k_m: 3.9e7,
            d_e_ref: 2.0e-1,
            delta_eff: 0.02,
            mean_energy: 3.0 * E_CHARGE,
            k_att_2body: 1.0e-17,
            k_att_3body: 1.0e-43,
            f_att: 0.21,
        }
    }

    /// A cylindrical focus of radius `r` and length `l`.
    fn cylinder(r: f64, l: f64) -> Focus<f64> {
        let volume = PI * r * r * l;
        let surface = 2.0 * PI * r * r + 2.0 * PI * r * l;
        Focus {
            lambda_diff: 1.0 / ((PI / l).powi(2) + (2.405 / r).powi(2)).sqrt(),
            mean_chord: 4.0 * volume / surface,
            volume,
        }
    }

    /// A spherical focus of radius `r`.
    fn sphere(r: f64) -> Focus<f64> {
        Focus {
            lambda_diff: r / PI,
            mean_chord: 4.0 * r / 3.0,
            volume: 4.0 / 3.0 * PI * r * r * r,
        }
    }

    /// The focus of a lens of 4 cm on a beam of 1 cm and 1 mrad.
    fn lens_focus() -> Focus<f64> {
        let l_axial = 0.414 * (1e-3 / 1e-2) * 0.04_f64.powi(2);
        Self::cylinder(20e-6, l_axial)
    }

    fn barrier(&self, eps_inf: f64, photon: f64, e: f64) -> f64 {
        (e * e - 2.0 * eps_inf * e) / (eps_inf * photon)
    }

    fn field(&self, intensity: f64) -> f64 {
        (2.0 * intensity / (EPS0 * C_LIGHT)).sqrt()
    }
}

impl Kinetics for Air {
    type Real = f64;

    type Series = Lanczos;

    fn series(&self) -> Lanczos {
        Lanczos
    }

    fn zero(&self) -> f64 {
        0.0
    }

    fn one(&self) -> f64 {
        1.0
    }

    fn half(&self) -> f64 {
        0.5
    }

    fn not_a_number(&self) -> f64 {
        f64::NAN
    }

    fn infinity(&self) -> f64 {
        f64::INFINITY
    }

    fn plus(&self, a: f64, b: f64) -> f64 {
        a + b
    }

    fn minus(&self, a: f64, b: f64) -> f64 {
        a - b
    }

    fn times(&self, a: f64, b: f64) -> f64 {
        a * b
    }

    fn ratio(&self, a: f64, b: f64) -> f64 {
        a / b
    }

    fn negate(&self, a: f64) -> f64 {
        -a
    }

    fn magnitude(&self, a: f64) -> f64 {
        a.abs()
    }

    fn larger(&self, a: f64, b: f64) -> f64 {
        a.max(b)
    }

    fn smaller(&self, a: f64, b: f64) -> f64 {
        a.min(b)
    }

    fn exponential(&self, a: f64) -> f64 {
        a.exp()
    }

    fn exponential_gain(&self, a: f64) -> f64 {
        a.exp_m1()
    }

    fn exceeds(&self, a: f64, b: f64) -> bool {
        a > b
    }

    fn reaches(&self, a: f64, b: f64) -> bool {
        a >= b
    }

    fn is_at_most(&self, a: f64, b: f64) -> bool {
        a <= b
    }

    fn is_positive(&self, a: f64) -> bool {
        a > 0.0
    }

    fn is_valid(&self, a: f64) -> bool {
        a > 0.0 && a.is_finite()
    }

    fn is_finite(&self, a: f64) -> bool {
        a.is_finite()
    }

    fn is_zero(&self, a: f64) -> bool {
        a == 0.0
    }

    fn is_nan(&self, a: f64) -> bool {
        a.is_nan()
    }

    fn climbs(&self, nu_relax: f64, eps_inf: f64, u_ion: f64, photon: f64) -> bool {
        nu_relax > 0.0
            && eps_inf > 0.0
            && u_ion > 0.0
            && photon > 0.0
            && nu_relax.is_finite()
            && eps_inf.is_finite()
            && u_ion.is_finite()
    }

    fn is_blocked(&self, eps_inf: f64, u_ion: f64, photon: f64) -> bool {
        self.barrier(eps_inf, photon, u_ion) - self.barrier(eps_inf, photon, eps_inf.min(u_ion))
            > MAX_EXPONENT
    }

    fn passage_step(&self, u_ion: f64, n: usize) -> f64 {
        u_ion / n as f64
    }

    fn passage_potential(&self, eps_inf: f64, photon: f64, h: f64, k: usize) -> f64 {
        self.barrier(eps_inf, photon, k as f64 * h)
    }

    fn passage_growth(&self, now: f64, before: f64) -> f64 {
        (now - before).exp()
    }

    fn passage_inner(&self, r: f64, s: f64, h: f64) -> f64 {
        r * s + 0.5 * h * (r + 1.0)
    }

    fn passage_outer(&self, total: f64, s: f64, w: f64, h: f64) -> f64 {
        total + s * w * h
    }

    fn passage_time(&self, total: f64, nu_relax: f64, eps_inf: f64, photon: f64) -> f64 {
        total / (0.5 * nu_relax * eps_inf * photon)
    }

    fn keldysh_gamma(&self, intensity: f64, omega: f64, u_ion: f64) -> f64 {
        omega * (2.0 * M_E * u_ion).sqrt() / (E_CHARGE * self.field(intensity))
    }

    fn is_small_gamma(&self, gamma: f64) -> bool {
        gamma < 0.1
    }

    fn exponent_series(&self, gamma: f64) -> f64 {
        gamma * (2.0 / 3.0 - gamma * gamma / 15.0)
    }

    fn exponent_closed(&self, gamma: f64) -> f64 {
        let root = (1.0 + gamma * gamma).sqrt();
        (1.0 + 1.0 / (2.0 * gamma * gamma)) * gamma.asinh() - root / (2.0 * gamma)
    }

    fn keldysh_action(&self, u_ion: f64, omega: f64, exponent: f64) -> f64 {
        2.0 * u_ion / (HBAR * omega) * exponent
    }

    fn keldysh_law(&self, prefactor: f64, omega: f64, action: f64) -> f64 {
        prefactor * omega * (-action.min(MAX_EXPONENT)).exp()
    }

    fn is_dawson_near(&self, x: f64) -> bool {
        x <= 4.0
    }

    fn dawson_near(&self, term: f64, x: f64, n: usize) -> f64 {
        term * (-2.0 * x * x / (2 * n + 1) as f64)
    }

    fn is_spent_term(&self, term: f64, sum: f64) -> bool {
        term.abs() < 1e-18 * sum.abs()
    }

    fn dawson_far_first(&self, x: f64) -> f64 {
        0.5 / x
    }

    fn dawson_far(&self, term: f64, x: f64, n: usize) -> f64 {
        term * ((2 * n - 1) as f64 / (2.0 * x * x))
    }

    fn ati_decay(&self, gamma: f64) -> f64 {
        2.0 * (gamma.asinh() - gamma / (1.0 + gamma * gamma).sqrt())
    }

    fn ati_count(&self, decay: f64) -> usize {
        (40.0 / decay).ceil() as usize
    }

    fn ati_excess(&self, threshold: f64, k: usize) -> f64 {
        threshold.ceil() + k as f64 - threshold
    }

    fn ati_exponent(&self, decay: f64, excess: f64) -> f64 {
        -decay * excess
    }

    fn is_underflow(&self, exponent: f64) -> bool {
        exponent < -MAX_EXPONENT
    }

    fn ati_argument(&self, gamma: f64, excess: f64) -> f64 {
        let root = (1.0 + gamma * gamma).sqrt();
        (2.0 * gamma / root * excess).sqrt()
    }

    fn ati_scale(&self, gamma: f64, sum: f64) -> f64 {
        4.0 / (3.0 * PI).sqrt() * (gamma * gamma / (1.0 + gamma * gamma)) * sum
    }

    fn ppt_gamma(&self, intensity: f64, omega: f64, u_ion: f64) -> f64 {
        let kappa = (2.0 * (u_ion / HARTREE)).sqrt();
        let omega_au = omega * HBAR / HARTREE;
        omega_au * kappa / (self.field(intensity) / F_ATOMIC)
    }

    fn is_tunnelling(&self, gamma: f64) -> bool {
        gamma < 0.1
    }

    fn ppt_threshold(&self, u_ion: f64, omega: f64, gamma: f64) -> f64 {
        let omega_au = omega * HBAR / HARTREE;
        (u_ion / HARTREE) / omega_au * (1.0 + 1.0 / (2.0 * gamma * gamma))
    }

    fn effective_number(&self, u_ion: f64, z_eff: f64) -> f64 {
        z_eff / (2.0 * (u_ion / HARTREE)).sqrt()
    }

    fn ppt_logarithm(
        &self,
        intensity: f64,
        omega: f64,
        u_ion: f64,
        z_eff: f64,
        a0: f64,
        exponent: f64,
        ln_gammas: (f64, f64),
    ) -> f64 {
        let ip = u_ion / HARTREE;
        let kappa = (2.0 * ip).sqrt();
        let f0 = kappa * kappa * kappa;
        let n_star = z_eff / kappa;
        let omega_au = omega * HBAR / HARTREE;
        let field = self.field(intensity) / F_ATOMIC;
        let gamma = omega_au * kappa / field;
        let root = (1.0 + gamma * gamma).sqrt();
        let ln_c2 = 2.0 * n_star * 2.0f64.ln()
            - n_star.ln()
            - ln_gammas.1
            - ln_gammas.0;
        let coulomb = (2.0 * n_star - 1.5) * (2.0 * f0 / (field * root)).ln();
        let action = 2.0 * ip / omega_au * exponent;
        ln_c2 + 0.5 * (6.0 / PI).ln() + ip.ln() + coulomb + a0.ln() - action
    }

    fn ppt_law(&self, logarithm: f64) -> f64 {
        logarithm.min(MAX_EXPONENT).exp() * HARTREE / HBAR
    }

    fn reference_law(&self, rate: f64, intensity: f64, reference: f64, photons: i32) -> f64 {
        rate * (intensity / reference).powi(photons)
    }

    fn attachment(&self, gas: Gas<f64>, n_neutral: f64) -> f64 {
        let n_att = gas.f_att * n_neutral;
        gas.k_att_2body * n_att + gas.k_att_3body * n_att * n_neutral
    }

    fn mean_speed(&self, gas: Gas<f64>) -> f64 {
        (3.0 * gas.d_e_ref * P_REF * gas.k_m).sqrt()
    }

    fn kinetic_diffusion(&self, gas: Gas<f64>, pressure: f64, energy: f64) -> f64 {
        2.0 * energy / (3.0 * M_E * gas.k_m * pressure)
    }

    fn implied_energy(&self, gas: Gas<f64>, pressure: f64, d_e: f64) -> f64 {
        1.5 * M_E * gas.k_m * pressure * d_e
    }

    fn inelastic_fraction(&self, gas: MonatomicGas<f64>) -> f64 {
        (gas.u_ion - gas.u_excite) / gas.u_ion
    }

    fn ambient_density(&self, pressure: f64, nu_att: f64) -> f64 {
        ION_PAIR_PRODUCTION * (pressure / P_REF) / nu_att
    }

    fn heating(&self, omega: f64, gas: Gas<f64>, intensity: f64, pressure: f64) -> f64 {
        let nu_m = gas.k_m * pressure;
        let p_abs = E_CHARGE * E_CHARGE * intensity / (M_E * C_LIGHT * EPS0);
        p_abs * nu_m / (nu_m * nu_m + omega * omega)
    }

    fn inelastic_loss(&self, gas: Gas<f64>, pressure: f64) -> f64 {
        gas.delta_eff * gas.k_m * pressure * gas.mean_energy
    }

    fn relaxation(&self, gas: Gas<f64>, pressure: f64) -> f64 {
        gas.delta_eff * gas.k_m * pressure
    }

    fn climb_rate(&self, nu_relax: f64, eps_inf: f64, u_ion: f64) -> f64 {
        nu_relax / (eps_inf / (eps_inf - u_ion)).ln()
    }

    fn photon_energy(&self, omega: f64) -> f64 {
        HBAR * omega
    }

    fn diffusion(&self, gas: Gas<f64>, pressure: f64) -> f64 {
        gas.d_e_ref * (P_REF / pressure)
    }

    fn escape(&self, _gas: Gas<f64>, focus: Focus<f64>, d_e: f64, speed: f64) -> f64 {
        let tau_diff = focus.lambda_diff * focus.lambda_diff / d_e;
        let tau_ballistic = focus.mean_chord / speed;
        1.0 / (tau_diff + tau_ballistic)
    }

    fn knudsen(&self, gas: Gas<f64>, focus: Focus<f64>, speed: f64, pressure: f64) -> f64 {
        speed / (gas.k_m * pressure * focus.mean_chord)
    }

    fn plateau(&self, omega: f64, u_ion: f64, delta_eff: f64) -> f64 {
        delta_eff * u_ion * M_E * C_LIGHT * EPS0 * omega * omega / (E_CHARGE * E_CHARGE)
    }

    fn capped(&self, exponent: f64) -> f64 {
        exponent.min(MAX_EXPONENT)
    }

    fn clamped(&self, exponent: f64) -> f64 {
        exponent.clamp(-MAX_EXPONENT, MAX_EXPONENT)
    }

    fn is_negligible(&self, exponent: f64) -> bool {
        exponent.abs() < 1e-12
    }

    fn half_window(&self, half_widths: f64, fwhm: f64) -> f64 {
        half_widths * fwhm
    }

    fn pulse_step(&self, half: f64, n_steps: usize) -> f64 {
        2.0 * half / n_steps as f64
    }

    fn pulse_intensity(&self, i_peak: f64, fwhm: f64, half: f64, dt: f64, step: usize) -> f64 {
        let c = 4.0 * std::f64::consts::LN_2 / (fwhm * fwhm);
        let t = -half + (step as f64 + 0.5) * dt;
        i_peak * (-c * t * t).exp()
    }

    fn bracket_floor(&self) -> f64 {
        1e12
    }

    fn bracket_ceiling(&self) -> f64 {
        1e22
    }

    fn geometric_mean(&self, lo: f64, hi: f64) -> f64 {
        (lo * hi).sqrt()
    }

    fn is_narrow(&self, lo: f64, hi: f64) -> bool {
        hi / lo < 1.0 + 1e-6
    }

    fn log_spaced(&self, lo: f64, hi: f64, i: usize, parts: usize) -> f64 {
        lo * (hi / lo).powf(i as f64 / parts as f64)
    }

    fn angular_frequency(&self, wavelength: f64) -> f64 {
        2.0 * PI * C_LIGHT / wavelength
    }

    fn photon_count(&self, u_ion: f64, omega: f64) -> i32 {
        (u_ion / (HBAR * omega)).ceil() as i32
    }

    fn density_per_pressure(&self, temperature: f64) -> f64 {
        1.0 / (1.380_649e-23 * temperature)
    }

    fn default_criterion(&self) -> f64 {
        1.0e23
    }

    fn default_charge(&self) -> f64 {
        Z_EFF_O2
    }

    fn default_window(&self) -> f64 {
        2.0
    }

    fn electron_volts(&self, ev: f64) -> f64 {
        ev * E_CHARGE
    }

    fn measured_rate(&self, criterion: f64, n_over_p: f64, pressure: f64, fwhm: f64) -> f64 {
        match self.mpi_rate {
            Some(rate) => rate,
            None => criterion / (n_over_p * pressure * fwhm),
        }
    }

    fn measured_intensity(&self) -> f64 {
        self.mpi_intensity
    }

    fn measured_photons(&self) -> i32 {
        14
    }
}

/// Refractivity of air at a wavelength in micrometres, in hundred-millionths.
fn ciddor_group(lambda_um: f64) -> f64 {
    let sigma2 = (1.0 / lambda_um).powi(2);
    5_792_105.0 / (238.0185 - sigma2) + 167_917.0 / (57.362 - sigma2)
}

/// Refractivity at a wavelength relative to one micrometre.
fn dispersion_ratio(wavelength: f64) -> f64 {
    ciddor_group(wavelength * 1e6) / ciddor_group(1.0)
}

/// The axes of the air table.
#[derive(Debug, Clone, Copy, PartialEq)]
struct AirAxes;

impl AirAxes {
    const T_MIN: f64 = 200.0;
    const T_STEP: f64 = 2.0;
    const P_MIN: f64 = 40_000.0;
    const P_STEP: f64 = 2_500.0;
}

impl Tabulation for AirAxes {
    type Real = f64;

    fn t_position(&self, t: f64) -> f64 {
        (t - Self::T_MIN) / Self::T_STEP
    }

    fn p_position(&self, p: f64) -> f64 {
        (p - Self::P_MIN) / Self::P_STEP
    }

    fn is_on_axis(&self, x: f64, last: usize) -> bool {
        (0.0..=last as f64).contains(&x)
    }

    fn node(&self, x: f64) -> usize {
        x.floor() as usize
    }

    fn past(&self, x: f64, node: usize) -> f64 {
        x - node as f64
    }

    fn blend(&self, c: (f64, f64, f64, f64), ft: f64, fp: f64) -> f64 {
        c.0 * (1.0 - ft) * (1.0 - fp) + c.1 * ft * (1.0 - fp) + c.2 * (1.0 - ft) * fp + c.3 * ft * fp
    }
}

impl AirScale for AirAxes {
    fn dispersion(&self, wavelength: f64) -> f64 {
        dispersion_ratio(wavelength)
    }

    fn times(&self, a: f64, b: f64) -> f64 {
        a * b
    }
}

/// The error function to seven digits.
fn erf(x: f64) -> f64 {
    let sign = x.signum();
    let x = x.abs();
    let t = 1.0 / (1.0 + 0.3275911 * x);
    let poly = t
        * (0.254829592
            + t * (-0.284496736 + t * (1.421413741 + t * (-1.453152027 + t * 1.061405429))));
    sign * (1.0 - poly * (-x * x).exp())
}

/// A Gaussian beam that heats a steady crosswind.
#[derive(Debug, Clone, Copy)]
struct SteadyWind {
    alpha_abs: f64,
    power: f64,
    w: f64,
    wind: f64,
    rho: f64,
    cp: f64,
    n_minus_1: f64,
    t0: f64,
    wavelength: f64,
}

impl SteadyWind {
    fn of(p: BloomingParams<f64>, air: AirProperties<f64>) -> Self {
        SteadyWind {
            alpha_abs: p.alpha_abs,
            power: p.power,
            w: p.w0,
            wind: p.wind,
            rho: air.rho,
            cp: air.cp,
            n_minus_1: air.n_minus_1,
            t0: p.t0,
            wavelength: p.wavelength,
        }
    }

    fn peak_intensity(&self) -> f64 {
        2.0 * self.power / (PI * self.w * self.w)
    }

    /// Temperature rise at a point of the launched beam.
    fn delta_t_ref(&self, x: f64, y: f64) -> f64 {
        let i0 = self.peak_intensity();
        let amp = self.alpha_abs * i0 * self.w / (self.rho * self.cp * self.wind);
        amp * (PI / 8.0).sqrt()
            * (-2.0 * y * y / (self.w * self.w)).exp()
            * (1.0 + erf(std::f64::consts::SQRT_2 * x / self.w))
    }

    /// Peak phase over a thin path.
    fn distortion_number(&self, path: f64) -> f64 {
        let k = 2.0 * PI / self.wavelength;
        (2.0 / PI).sqrt() * k * self.n_minus_1 * self.alpha_abs * self.power * path
            / (self.t0 * self.rho * self.cp * self.wind * self.w)
    }
}

impl BloomingCase for Light {
    fn distortion(&self, p: BloomingParams<f64>, air: AirProperties<f64>) -> f64 {
        SteadyWind::of(p, air).distortion_number(p.z)
    }

    fn saturated_rise(&self, p: BloomingParams<f64>, air: AirProperties<f64>) -> f64 {
        SteadyWind::of(p, air).delta_t_ref(1e3 * p.w0, 0.0)
    }
}

impl IgnitionCase for Light {
    type Path = Screens;
    type Kinetics = Air;

    fn ignition_path(&self, p: IgnitionParams<f64>, member: u64) -> Screens {
        turbulent_path(self, &p, member)
    }

    fn kinetics(&self) -> Air {
        AIR
    }

    fn setup(&self, wavelength: f64) -> Setup<f64> {
        Setup {
            wavelength,
            gas: Air::dry_air(),
            focus: Air::lens_focus(),
            temperature: 288.0,
        }
    }

    fn focal_area(&self, wavelength: f64, focal_length: f64) -> f64 {
        (wavelength * focal_length).powi(2)
    }

    fn square_length(&self, d: (f64, f64)) -> f64 {
        d.0 * d.0 + d.1 * d.1
    }

    fn root(&self, x: f64) -> f64 {
        x.sqrt()
    }
}

impl IgnitionSweepCase for Light {
    fn sweep_strength(&self, lo: f64, hi: f64, i: usize, points: usize) -> f64 {
        let frac = i as f64 / (points - 1) as f64;
        lo * (hi / lo).powf(frac)
    }

    fn is_above_zero(&self, x: f64) -> bool {
        x > 0.0
    }

    fn fried_r0(&self, cn2: f64, wavelength: f64, z: f64) -> f64 {
        let k = 2.0 * PI / wavelength;
        (0.423 * k * k * cn2 * z).powf(-3.0 / 5.0)
    }

    fn standard_error(&self, fraction: f64, n: usize) -> f64 {
        (fraction * (1.0 - fraction) / n as f64).sqrt()
    }

    fn reaches(&self, a: f64, b: f64) -> bool {
        a >= b
    }

    fn high_level(&self) -> f64 {
        0.9
    }

    fn low_level(&self) -> f64 {
        0.1
    }

    fn crossing(&self, before: (f64, f64), after: (f64, f64), level: f64) -> f64 {
        let t = (before.1 - level) / (before.1 - after.1);
        before.0.log10() + t * (after.0.log10() - before.0.log10())
    }
}

/// Screens of one wave each, fixed by a seed and a member.
struct Screens {
    dz: f64,
    screens: Vec<Plane<f64>>,
}

fn scramble(x: u64) -> u64 {
    let mut z = x.wrapping_add(0x9E37_79B9_7F4A_7C15);
    z = (z ^ (z >> 30)).wrapping_mul(0xBF58_476D_1CE4_E5B9);
    z = (z ^ (z >> 27)).wrapping_mul(0x94D0_49BB_1331_11EB);
    z ^ (z >> 31)
}

fn unit(x: u64) -> f64 {
    (scramble(x) >> 11) as f64 / (1u64 << 53) as f64
}

impl Medium<Light> for Screens {
    type Refusal = ();

    fn index_perturbation(&self, _optics: &Light, z_slab: usize) -> Plane<f64> {
        self.screens[z_slab].map(|v: f64| v)
    }

    fn slab_count(&self, _optics: &Light) -> Option<usize> {
        Some(self.screens.len())
    }
}

impl Path<Light> for Screens {
    fn dz(&self, _optics: &Light) -> f64 {
        self.dz
    }

    fn n_slabs(&self, _optics: &Light) -> usize {
        self.screens.len()
    }
}

fn turbulent_path(light: &Light, p: &IgnitionParams<f64>, member: u64) -> Screens {
    let dz = p.z / p.screens as f64;
    let light = *light;
    let screens = (0..p.screens as u64)
        .map(|s| {
            let key = scramble(p.seed ^ scramble(member ^ scramble(s)));
            let (a, b, phase) = (unit(key) - 0.5, unit(key + 1) - 0.5, unit(key + 2) * 2.0 * PI);
            let amp = 1e-9 * (p.cn2 / 1e-14).sqrt();
            Plane::from_fn(p.n, p.n, move |j: usize, i: usize| {
                let (x, y) = (light.coord(i), light.coord(j));
                amp * (2.0 * PI * (a * x + b * y) / 0.05 + phase).sin()
            })
        })
        .collect();
    Screens { dz, screens }
}

fn shot() -> IgnitionParams<f64> {
    IgnitionParams {
        n: 64,
        dx: 2e-3,
        wavelength: 1.064e-6,
        w0: 1.5e-2,
        z: 200.0,
        screens: 3,
        cn2: 1e-15,
        l0: 1e3,
        aperture: 0.06,
        focal_length: 1.0,
        power: 1e9,
        fwhm: 6e-9,
        p0: 101_325.0,
        ignition_steps: 100,
        realizations: 4,
        seed: 7,
    }
}

fn light() -> Light {
    Light::new(64, 2e-3, 1.064e-6)
}

#[test]
fn an_ensemble_reports_every_member() {
    let r = run_ignition(&light(), &shot()).unwrap();
    assert_eq!(r.shots.len(), 4);
    assert!(r.i_focus_vacuum > 0.0);
    let lit = r.shots.iter().filter(|s| s.ignited).count();
    assert_eq!(r.p_ignite, lit as f64 / 4.0);
    for s in &r.shots {
        assert!(s.focal_ratio > 0.0 && s.focal_ratio < 1.05, "ratio {}", s.focal_ratio);
        assert!(s.strehl > 0.0 && s.strehl <= 1.0 + 1e-12, "Strehl ratio {}", s.strehl);
        assert_eq!(s.ignited, s.focal_ratio * r.i_focus_vacuum > r.i_threshold);
    }
    let rms = (r.shots.iter().map(|s| s.wander.0.powi(2) + s.wander.1.powi(2)).sum::<f64>() / 4.0)
        .sqrt();
    assert!((r.wander_rms - rms).abs() <= 1e-15 * rms.max(1e-9));
    // A seed fixes the ensemble, and another gives another.
    let again = run_ignition(&light(), &shot()).unwrap();
    assert_eq!(again.shots[2].focal_ratio, r.shots[2].focal_ratio);
    let other = run_ignition(&light(), &IgnitionParams { seed: 8, ..shot() }).unwrap();
    assert!(other.shots[2].focal_ratio != r.shots[2].focal_ratio);
    // More members keep the first.
    let more = run_ignition(&light(), &IgnitionParams { realizations: 5, ..shot() }).unwrap();
    assert_eq!(more.shots[3].focal_ratio, r.shots[3].focal_ratio);
}

#[test]
fn power_decides_whether_every_member_or_none_lights() {
    let bright = run_ignition(&light(), &IgnitionParams { power: 1e14, ..shot() }).unwrap();
    assert_eq!(bright.p_ignite, 1.0);
    let dim = run_ignition(&light(), &IgnitionParams { power: 1.0, ..shot() }).unwrap();
    assert_eq!(dim.p_ignite, 0.0);
    assert_eq!(bright.i_threshold, dim.i_threshold);
    let scale = bright.i_focus_vacuum / dim.i_focus_vacuum;
    assert!((scale / 1e14 - 1.0).abs() < 1e-12);
}

#[test]
fn an_ensemble_that_cannot_be_run_says_why() {
    let refused = |p: IgnitionParams<f64>| run_ignition(&light(), &p).err();
    assert_eq!(
        refused(IgnitionParams { realizations: 0, ..shot() }),
        Some(IgnitionError::NoRealizations)
    );
    assert_eq!(
        refused(IgnitionParams { aperture: 1.0, ..shot() }),
        Some(IgnitionError::Aperture(ApertureError::TooWide))
    );
    assert!(matches!(
        refused(IgnitionParams { power: 0.0, ..shot() }),
        Some(IgnitionError::Scale(_))
    ));
    assert!(matches!(
        refused(IgnitionParams { w0: 0.2, ..shot() }),
        Some(IgnitionError::Vacuum(_))
    ));
    assert!(matches!(
        refused(IgnitionParams { p0: -1.0, ..shot() }),
        Some(IgnitionError::Threshold(_))
    ));
}

#[test]
fn a_summary_counts_and_averages() {
    let shot_at = |ignited: bool, x: f64, guard: f64| Shot {
        focal_ratio: 0.5,
        strehl: 0.5,
        wander: (x, 0.0),
        ignited,
        guard_frac: guard,
    };
    let shots = vec![
        shot_at(true, 3.0, 0.1),
        shot_at(false, 0.0, 0.2),
        shot_at(true, 0.0, 0.3),
        shot_at(true, 4.0, 0.2),
    ];
    let r = summarize(&light(), 2.0, 1.0, shots);
    assert_eq!(r.p_ignite, 0.75);
    assert_eq!(r.wander_rms, 2.5);
    assert!((r.guard_frac_mean - 0.2).abs() < 1e-15);
    assert_eq!((r.i_focus_vacuum, r.i_threshold), (2.0, 1.0));
}

#[test]
fn sorting_keeps_every_value() {
    let k = light();
    assert_eq!(sorted_of(&k, &[]), Vec::<f64>::new());
    assert_eq!(sorted_of(&k, &[3.0, 1.0, 2.0, 1.0]), vec![1.0, 1.0, 2.0, 3.0]);
}

#[test]
fn a_transition_is_measured_between_its_levels() {
    let k = light();
    assert_eq!(transition_width_decades(&k, &[]), None);
    // From 1 to 0 over two decades, straight in the logarithm: a slope of one
    // half per decade, so four fifths take 1.6 decades.
    let curve = [(1e-16, 1.0), (1e-14, 0.0)];
    let w = transition_width_decades(&k, &curve).unwrap();
    assert!((w - 1.6).abs() < 1e-12, "width {w}");
    // A curve that never falls to the low level has no width.
    assert_eq!(transition_width_decades(&k, &[(1e-16, 1.0), (1e-14, 0.5)]), None);
    assert_eq!(transition_width_decades(&k, &[(1e-16, 0.5), (1e-14, 0.0)]), None);
}

#[test]
fn a_sweep_spans_its_strengths() {
    let p = IgnitionSweepParams {
        base: IgnitionParams { realizations: 3, ..shot() },
        cn2_min: 1e-17,
        cn2_max: 1e-13,
        points: 3,
    };
    let r = run_ignition_sweep(&light(), &p).unwrap();
    assert_eq!(r.points.len(), 3);
    assert_eq!(r.points[0].cn2, 1e-17);
    assert!((r.points[2].cn2 / 1e-13 - 1.0).abs() < 1e-12);
    for q in &r.points {
        assert_eq!(q.focal_ratio.len(), 3);
        assert_eq!(q.strehl.len(), 3);
        assert_eq!(q.d_over_r0, 0.06 / q.r0);
        let sorted = sorted_of(&light(), &q.focal_ratio);
        assert_eq!(q.median_ratio, sorted[1]);
        let mean = q.focal_ratio.iter().sum::<f64>() / 3.0;
        assert!((q.mean_ratio - mean).abs() < 1e-15);
        let se = (q.p_ignite * (1.0 - q.p_ignite) / 3.0).sqrt();
        assert_eq!(q.p_ignite_se, se);
    }
    // Stronger turbulence degrades the focus.
    assert!(r.points[2].mean_ratio < r.points[0].mean_ratio);
    let refused = |q: IgnitionSweepParams<f64>| run_ignition_sweep(&light(), &q).err();
    assert_eq!(refused(IgnitionSweepParams { points: 1, ..p }), Some(SweepError::TooFewPoints));
    assert_eq!(refused(IgnitionSweepParams { cn2_min: 0.0, ..p }), Some(SweepError::BadRange));
    assert_eq!(refused(IgnitionSweepParams { cn2_max: 1e-17, ..p }), Some(SweepError::BadRange));
    let bare = IgnitionSweepParams {
        base: IgnitionParams { realizations: 0, ..shot() },
        ..p
    };
    assert_eq!(refused(bare), Some(SweepError::Ignition(IgnitionError::NoRealizations)));
}

/// Air of uniform properties at 288.15 K and one atmosphere.
fn still_air() -> AirTable<f64> {
    let (n_t, n_p) = (beamprop::airprops::N_T, beamprop::airprops::N_P);
    let mut data = Vec::with_capacity(4 * n_t * n_p);
    for value in [1.225, 1004.5, 2.55e-2, 2.74e-4] {
        data.resize(data.len() + n_t * n_p, value);
    }
    AirTable::load((4, n_t, n_p), data).ok().unwrap()
}

fn windy() -> BloomingParams<f64> {
    BloomingParams {
        n: 256,
        dx: 1e-3,
        wavelength: 1e-6,
        w0: 2e-2,
        power: 2e4,
        wind: 2.0,
        alpha_abs: 1e-4,
        t0: 288.15,
        p0: 101_325.0,
        z: 200.0,
        steps: 40,
        frames: 2,
    }
}

#[test]
fn blooming_run_bends_upwind() {
    let k = Light::new(256, 1e-3, 1e-6);
    let r = run_blooming(&k, &AirAxes, &still_air(), &windy()).unwrap();
    assert!(r.centroid_x.unwrap() < 0.0);
    let t = r.record.transmission;
    assert!(t < 1.0 && t > 0.9);
    assert!(r.n_phi > 0.0 && r.peclet > 100.0);
    assert_eq!(r.dz, 5.0);
    assert_eq!(r.record.snapshots.len(), r.snapshot_z.len());
    assert_eq!(r.record.final_intensity.height(), 256);
    // The rise far downwind is twice the rise on the axis.
    let air = still_air().at(&AirAxes, 288.15, 101_325.0, 1e-6).unwrap();
    let wind = SteadyWind::of(windy(), air);
    assert!((r.delta_t_sat / wind.delta_t_ref(0.0, 0.0) - 2.0).abs() < 1e-6);
}

#[test]
fn a_blooming_run_that_cannot_be_had_says_why() {
    let k = Light::new(256, 1e-3, 1e-6);
    let refused = |p: BloomingParams<f64>| run_blooming(&k, &AirAxes, &still_air(), &p).err();
    assert_eq!(
        refused(BloomingParams { t0: 100.0, ..windy() }),
        Some(BloomingCaseError::Table(TableError::TemperatureOutside))
    );
    assert_eq!(
        refused(BloomingParams { p0: 1e6, ..windy() }),
        Some(BloomingCaseError::Table(TableError::PressureOutside))
    );
    assert!(matches!(
        refused(BloomingParams { wind: 1e-9, ..windy() }),
        Some(BloomingCaseError::Medium(_))
    ));
    assert!(matches!(
        refused(BloomingParams { w0: 0.2, ..windy() }),
        Some(BloomingCaseError::Propagate(PropagateError::NotContained))
    ));
}

#[test]
fn a_request_is_checked_in_order() {
    let k = light();
    assert_eq!(checked_beam(&k, 1e-6, 1e-2), Ok(()));
    assert_eq!(checked_beam(&k, 0.0, 0.0), Err(BeamError::BadWavelength));
    assert_eq!(checked_beam(&k, f64::NAN, 1e-2), Err(BeamError::BadWavelength));
    assert_eq!(checked_beam(&k, 1e-6, -1.0), Err(BeamError::BadWaist));
    let q = PathRequest {
        wavelength: 1e-6,
        cn2: 1e-15,
        z: 1e3,
        l0: 10.0,
        screens: 4,
        substeps: 2,
    };
    assert_eq!(check_path(&k, &q), Ok(()));
    assert_eq!(check_path(&k, &PathRequest { screens: 0, ..q }), Err(PathError::NoScreens));
    assert_eq!(check_path(&k, &PathRequest { substeps: 0, ..q }), Err(PathError::NoSubsteps));
    assert_eq!(check_path(&k, &PathRequest { cn2: 0.0, ..q }), Err(PathError::BadTurbulence));
    assert_eq!(check_path(&k, &PathRequest { z: -1.0, ..q }), Err(PathError::BadTurbulence));
    assert_eq!(
        check_path(&k, &PathRequest { wavelength: 0.0, ..q }),
        Err(PathError::BadWavelength)
    );
}

#[test]
fn a_sweep_sets_its_own_strengths() {
    let p = IgnitionSweepParams {
        base: IgnitionParams { realizations: 2, ..shot() },
        cn2_min: 1e-16,
        cn2_max: 1e-14,
        points: 2,
    };
    let q = IgnitionSweepParams { base: IgnitionParams { cn2: 7e-13, ..p.base }, ..p };
    let (a, b) = (
        run_ignition_sweep(&light(), &p).unwrap(),
        run_ignition_sweep(&light(), &q).unwrap(),
    );
    assert_eq!(a.transition_decades, b.transition_decades);
    for (x, y) in a.points.iter().zip(&b.points) {
        assert_eq!((x.cn2, x.r0, x.p_ignite), (y.cn2, y.r0, y.p_ignite));
        assert_eq!((&x.focal_ratio, &x.strehl), (&y.focal_ratio, &y.strehl));
        assert_eq!(x.wander_rms, y.wander_rms);
    }
}

#[test]
fn an_ensemble_comes_out_the_same_each_time() {
    let p = IgnitionParams { realizations: 3, ..shot() };
    let (a, b) = (run_ignition(&light(), &p).unwrap(), run_ignition(&light(), &p).unwrap());
    assert_eq!((a.p_ignite, a.wander_rms), (b.p_ignite, b.wander_rms));
    assert_eq!((a.i_focus_vacuum, a.i_threshold), (b.i_focus_vacuum, b.i_threshold));
    assert_eq!(a.guard_frac_mean, b.guard_frac_mean);
    for (x, y) in a.shots.iter().zip(&b.shots) {
        assert_eq!((x.focal_ratio, x.strehl, x.wander), (y.focal_ratio, y.strehl, y.wander));
        assert_eq!((x.ignited, x.guard_frac), (y.ignited, y.guard_frac));
    }
}

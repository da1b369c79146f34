use beamprop::euler1d::{Conserved, EulerError, Scheme1d};
use beamprop::lsd::{
    find_front, max_of, sum_of, Absorption, Beam1d, IonizationCeiling, LsdColumn, LsdError,
    PlasmaColumn, SeededIgnition,
};
use beamprop::medium::Medium;
use beamprop::optics::Optics;
use beamprop::plasmaprops::{PlasmaScale, PlasmaTable, N_P, N_T};
use beamprop::plane::Plane;
use beamprop::riemann::Acoustics;
use beamprop::table::{TableError, Tabulation};
use ndarray::Array2;
use ndrustfft::{ndfft, ndifft, FftHandler};
use num_complex::Complex64;
use std::f64::consts::PI;

/// Density, velocity and pressure.
type Primitive = beamprop::euler1d::Primitive<f64>;

/// A calorically perfect gas.
#[derive(Debug, Clone, Copy, PartialEq)]
struct IdealGas {
    gamma: f64,
}

impl IdealGas {
    const AIR: Self = Self { gamma: 1.4 };

    fn speed_of_sound(&self, rho: f64, p: f64) -> f64 {
        (self.gamma * p / rho).sqrt()
    }

    fn specific_internal_energy(&self, rho: f64, p: f64) -> f64 {
        p / ((self.gamma - 1.0) * rho)
    }

    fn to_conserved(&self, w: Primitive) -> Conserved<f64> {
        Conserved {
            rho: w.rho,
            mom: w.rho * w.u,
            energy: w.p / (self.gamma - 1.0) + 0.5 * w.rho * w.u * w.u,
        }
    }

    fn to_primitive(&self, u: Conserved<f64>) -> Primitive {
        let v = u.mom / u.rho;
        Primitive {
            rho: u.rho,
            u: v,
            p: (self.gamma - 1.0) * (u.energy - 0.5 * u.mom * v),
        }
    }
}

/// A positive, finite number; not a number is neither.
fn positive(x: f64) -> bool {
    x > 0.0 && x.is_finite()
}

impl Acoustics for IdealGas {
    type Real = f64;

    fn zero(&self) -> f64 {
        0.0
    }

    fn plus(&self, a: f64, b: f64) -> f64 {
        a + b
    }

    fn minus(&self, a: f64, b: f64) -> f64 {
        a - b
    }

    fn times(&self, a: f64, b: f64) -> f64 {
        a * b
    }

    fn half(&self, x: f64) -> f64 {
        0.5 * x
    }

    fn smaller(&self, a: f64, b: f64) -> f64 {
        a.min(b)
    }

    fn larger(&self, a: f64, b: f64) -> f64 {
        a.max(b)
    }

    fn root(&self, x: f64) -> f64 {
        x.sqrt()
    }

    fn opposes(&self, a: f64, b: f64) -> bool {
        a * b <= 0.0
    }

    fn is_flatter(&self, a: f64, b: f64) -> bool {
        a.abs() < b.abs()
    }

    fn exceeds_zero(&self, x: f64) -> bool {
        x > 0.0
    }

    fn is_forward(&self, x: f64) -> bool {
        x >= 0.0
    }

    fn is_backward(&self, x: f64) -> bool {
        x <= 0.0
    }

    fn flux(&self, u: Conserved<f64>) -> Conserved<f64> {
        let w = self.to_primitive(u);
        Conserved {
            rho: u.mom,
            mom: u.mom * w.u + w.p,
            energy: (u.energy + w.p) * w.u,
        }
    }

    fn velocity(&self, u: Conserved<f64>) -> f64 {
        self.to_primitive(u).u
    }

    fn sound_speed(&self, u: Conserved<f64>) -> f64 {
        let w = self.to_primitive(u);
        self.speed_of_sound(w.rho, w.p)
    }

    fn pressure(&self, u: Conserved<f64>) -> f64 {
        self.to_primitive(u).p
    }

    fn roe(&self, left: Conserved<f64>, right: Conserved<f64>) -> (f64, f64) {
        let (wl, wr) = (self.to_primitive(left), self.to_primitive(right));
        let (sl, sr) = (wl.rho.sqrt(), wr.rho.sqrt());
        let u = (sl * wl.u + sr * wr.u) / (sl + sr);
        let hl = (left.energy + wl.p) / wl.rho;
        let hr = (right.energy + wr.p) / wr.rho;
        let h = (sl * hl + sr * hr) / (sl + sr);
        (u, (self.gamma - 1.0) * (h - 0.5 * u * u))
    }

    fn contact(&self, left: Conserved<f64>, right: Conserved<f64>, s_left: f64, s_right: f64) -> f64 {
        let (wl, wr) = (self.to_primitive(left), self.to_primitive(right));
        let ml = wl.rho * (s_left - wl.u);
        let mr = wr.rho * (s_right - wr.u);
        (wr.p - wl.p + ml * wl.u - mr * wr.u) / (ml - mr)
    }

    fn star(&self, u: Conserved<f64>, s: f64, s_star: f64) -> Conserved<f64> {
        let w = self.to_primitive(u);
        let coef = w.rho * (s - w.u) / (s - s_star);
        Conserved {
            rho: coef,
            mom: coef * s_star,
            energy: coef
                * (u.energy / w.rho + (s_star - w.u) * (s_star + w.p / (w.rho * (s - w.u)))),
        }
    }
}

/// A gas on a uniform line.
#[derive(Debug, Clone, Copy, PartialEq)]
struct Line {
    gas: IdealGas,
    x_min: f64,
    dx: f64,
    length: f64,
    /// Fewest cells that an absorption length may span.
    min_cells: f64,
    /// Largest share of the line that an absorption length may span.
    max_share: f64,
}

impl Line {
    /// A line on its own.
    fn new(gas: IdealGas, x_min: f64, dx: f64, length: f64) -> Self {
        Self {
            gas,
            x_min,
            dx,
            length,
            min_cells: 4.0,
            max_share: 0.25,
        }
    }

    /// A pencil of a wider beam.
    fn pencil(gas: IdealGas, dx: f64, length: f64) -> Self {
        Self {
            min_cells: 5.0,
            max_share: 0.1,
            ..Self::new(gas, 0.0, dx, length)
        }
    }
}

impl Acoustics for Line {
    type Real = f64;

    fn zero(&self) -> f64 {
        Acoustics::zero(&self.gas)
    }

    fn plus(&self, a: f64, b: f64) -> f64 {
        Acoustics::plus(&self.gas, a, b)
    }

    fn minus(&self, a: f64, b: f64) -> f64 {
        Acoustics::minus(&self.gas, a, b)
    }

    fn times(&self, a: f64, b: f64) -> f64 {
        Acoustics::times(&self.gas, a, b)
    }

    fn half(&self, x: f64) -> f64 {
        Acoustics::half(&self.gas, x)
    }

    fn smaller(&self, a: f64, b: f64) -> f64 {
        Acoustics::smaller(&self.gas, a, b)
    }

    fn larger(&self, a: f64, b: f64) -> f64 {
        Acoustics::larger(&self.gas, a, b)
    }

    fn root(&self, x: f64) -> f64 {
        Acoustics::root(&self.gas, x)
    }

    fn opposes(&self, a: f64, b: f64) -> bool {
        Acoustics::opposes(&self.gas, a, b)
    }

    fn is_flatter(&self, a: f64, b: f64) -> bool {
        Acoustics::is_flatter(&self.gas, a, b)
    }

    fn exceeds_zero(&self, x: f64) -> bool {
        Acoustics::exceeds_zero(&self.gas, x)
    }

    fn is_forward(&self, x: f64) -> bool {
        Acoustics::is_forward(&self.gas, x)
    }

    fn is_backward(&self, x: f64) -> bool {
        Acoustics::is_backward(&self.gas, x)
    }

    fn flux(&self, u: Conserved<f64>) -> Conserved<f64> {
        Acoustics::flux(&self.gas, u)
    }

    fn velocity(&self, u: Conserved<f64>) -> f64 {
        Acoustics::velocity(&self.gas, u)
    }

    fn sound_speed(&self, u: Conserved<f64>) -> f64 {
        Acoustics::sound_speed(&self.gas, u)
    }

    fn pressure(&self, u: Conserved<f64>) -> f64 {
        Acoustics::pressure(&self.gas, u)
    }

    fn roe(&self, left: Conserved<f64>, right: Conserved<f64>) -> (f64, f64) {
        Acoustics::roe(&self.gas, left, right)
    }

    fn contact(&self, left: Conserved<f64>, right: Conserved<f64>, s_left: f64, s_right: f64) -> f64 {
        Acoustics::contact(&self.gas, left, right, s_left, s_right)
    }

    fn star(&self, u: Conserved<f64>, s: f64, s_star: f64) -> Conserved<f64> {
        Acoustics::star(&self.gas, u, s, s_star)
    }
}

impl Scheme1d for Line {
    fn spacing_is_valid(&self) -> bool {
        positive(self.dx)
    }

    fn admits(&self, w: Primitive) -> bool {
        positive(w.rho) && positive(w.p)
    }

    fn to_conserved(&self, w: Primitive) -> Conserved<f64> {
        self.gas.to_conserved(w)
    }

    fn to_primitive(&self, u: Conserved<f64>) -> Primitive {
        self.gas.to_primitive(u)
    }

    fn is_physical(&self, u: Conserved<f64>) -> bool {
        let w = self.gas.to_primitive(u);
        positive(w.rho) && positive(w.p) && w.u.is_finite()
    }

    fn is_positive(&self, x: f64) -> bool {
        positive(x)
    }

    fn is_source_interval(&self, dt: f64) -> bool {
        dt.is_finite() && !(dt < 0.0)
    }

    fn default_cfl(&self) -> f64 {
        0.8
    }

    fn cfl_is_valid(&self, cfl: f64) -> bool {
        positive(cfl) && !(cfl > 0.8)
    }

    fn wave_speed(&self, u: Conserved<f64>) -> f64 {
        let w = self.gas.to_primitive(u);
        w.u.abs() + self.gas.speed_of_sound(w.rho, w.p)
    }

    fn courant_step(&self, cfl: f64, speed: f64) -> f64 {
        cfl * self.dx / speed
    }

    fn violates(&self, dt: f64, limit: f64) -> bool {
        dt > limit * (1.0 + 1e-12)
    }

    fn is_before(&self, t: f64, t_end: f64) -> bool {
        t < t_end
    }

    fn clip(&self, dt: f64, t: f64, t_end: f64) -> f64 {
        dt.min(t_end - t)
    }

    fn x_centre(&self, i: usize) -> f64 {
        self.x_min + (i as f64 + 0.5) * self.dx
    }

    fn half_weight(&self, dt: f64) -> f64 {
        0.5 * dt / self.dx
    }

    fn weight(&self, dt: f64) -> f64 {
        dt / self.dx
    }

    fn heat(&self, dt: f64, energy: f64, rate: f64) -> f64 {
        energy + dt * rate
    }

    fn integral(&self, sum: f64) -> f64 {
        sum * self.dx
    }
}

const SECOND_IONIZATION_K: f64 = 20_000.0;

/// The axes of the plasma table.
#[derive(Debug, Clone, Copy, PartialEq)]
struct PlasmaAxes;

impl PlasmaAxes {
    const T_MIN: f64 = 200.0;
    const T_STEP: f64 = 50.0;
    const P_LOG10_MIN: f64 = 4.0;
    const P_PER_DECADE: f64 = 8.0;
}

impl Tabulation for PlasmaAxes {
    type Real = f64;

    fn t_position(&self, t: f64) -> f64 {
        (t - Self::T_MIN) / Self::T_STEP
    }

    fn p_position(&self, p: f64) -> f64 {
        (p.log10() - Self::P_LOG10_MIN) * Self::P_PER_DECADE
    }

    fn is_on_axis(&self, x: f64, last: usize) -> bool {
        (0.0..=last as f64).contains(&x)
    }

    fn node(&self, x: f64) -> usize {
        x.floor() as usize
    }

    fn past(&self, x: f64, node: usize) -> f64 {
        x - node as f64
    }

    fn blend(&self, c: (f64, f64, f64, f64), ft: f64, fp: f64) -> f64 {
        c.0 * (1.0 - ft) * (1.0 - fp) + c.1 * ft * (1.0 - fp) + c.2 * (1.0 - ft) * fp + c.3 * ft * fp
    }
}

impl PlasmaScale for PlasmaAxes {
    fn second_ionization(&self) -> f64 {
        SECOND_IONIZATION_K
    }

    fn is_finite(&self, x: f64) -> bool {
        x.is_finite()
    }

    fn is_positive(&self, x: f64) -> bool {
        !(x <= 0.0)
    }

    fn exponential(&self, x: f64) -> f64 {
        x.exp()
    }

    fn ratio(&self, a: f64, b: f64) -> f64 {
        a / b
    }

    fn charge(&self) -> f64 {
        1.0
    }

    fn coldest(&self) -> f64 {
        Self::T_MIN
    }

    fn hottest(&self) -> f64 {
        Self::T_MIN + (beamprop::plasmaprops::N_T - 1) as f64 * Self::T_STEP
    }

    fn is_between(&self, x: f64, lo: f64, hi: f64) -> bool {
        (lo..=hi).contains(&x)
    }

    fn exceeds(&self, a: f64, b: f64) -> bool {
        a > b
    }

    fn midpoint(&self, lo: f64, hi: f64) -> f64 {
        0.5 * (lo + hi)
    }
}

impl Beam1d for Line {
    type Axes = PlasmaAxes;

    fn axes(&self) -> PlasmaAxes {
        PlasmaAxes
    }

    fn internal_energy(&self, w: Primitive) -> f64 {
        self.gas.specific_internal_energy(w.rho, w.p)
    }

    fn exceeds(&self, a: f64, b: f64) -> bool {
        a > b
    }

    fn reaches(&self, a: f64, b: f64) -> bool {
        a >= b
    }

    fn one(&self) -> f64 {
        1.0
    }

    fn lowest(&self) -> f64 {
        f64::NEG_INFINITY
    }

    fn ratio(&self, a: f64, b: f64) -> f64 {
        a / b
    }

    fn free_free(&self, wavelength: f64, gaunt: f64, z: f64, n_e: f64, n_i: f64, t: f64) -> f64 {
        let nu = 299_792_458.0 / wavelength;
        let x = 6.626_070_15e-34 * nu / (1.380_649e-23 * t);
        3.7e-2 * gaunt * z * z * n_e * n_i / (t.sqrt() * nu * nu * nu) * (-(-x).exp_m1())
    }

    fn attenuate(&self, intensity: f64, alpha: f64) -> f64 {
        intensity * (-alpha * self.dx).exp()
    }

    fn absorbed(&self, entering: f64, leaving: f64) -> f64 {
        (entering - leaving) / self.dx
    }

    fn bank(&self, total: f64, dt: f64, sum: f64) -> f64 {
        total + dt * self.dx * sum
    }

    fn budget_gap(&self, energy: f64, initial: f64, deposited: f64) -> f64 {
        ((energy - initial) - deposited).abs() / deposited.abs().max(f64::MIN_POSITIVE)
    }

    fn predicted_speed(&self, w: Primitive, q: f64, dt: f64) -> f64 {
        let p = w.p + (self.gas.gamma - 1.0) * q * 0.5 * dt;
        w.u.abs() + self.gas.speed_of_sound(w.rho, p.max(w.p))
    }

    fn is_settled(&self, next: f64, dt: f64) -> bool {
        (next - dt).abs() <= 1e-10 * dt
    }

    fn shave(&self, dt: f64) -> f64 {
        dt * (1.0 - 1e-9)
    }

    fn is_front(&self, p_max: f64, ambient: Primitive) -> bool {
        !(p_max < 2.0 * ambient.p)
    }

    fn half_rise(&self, p_max: f64, ambient: Primitive) -> f64 {
        ambient.p + 0.5 * (p_max - ambient.p)
    }

    fn crossing(&self, level: f64, before: Primitive, at: Primitive, i: usize) -> f64 {
        let f = (level - before.p) / (at.p - before.p);
        self.x_centre(i - 1) + f * self.dx
    }

    fn mean_speed(&self, x0: f64, x1: f64, t0: f64, t1: f64) -> f64 {
        (x0 - x1) / (t1 - t0)
    }

    fn transmission(&self, depth: f64) -> f64 {
        (-depth).exp()
    }

    fn is_quiet(&self, w: Primitive, ambient: Primitive) -> bool {
        (w.p - ambient.p).abs() <= 1e-9 * ambient.p
            && (w.rho - ambient.rho).abs() <= 1e-9 * ambient.rho
            && w.u == 0.0
    }

    fn length_is_valid(&self) -> bool {
        positive(self.length)
    }

    fn is_hot_spot(&self, seed: SeededIgnition<f64>, ambient: Primitive) -> bool {
        positive(seed.width) && !(seed.pressure <= ambient.p)
    }

    fn is_in_seed(&self, seed: SeededIgnition<f64>, x: f64) -> bool {
        (x - seed.centre).abs() <= 0.5 * seed.width
    }

    fn absorbs(&self, alpha: f64) -> bool {
        !(alpha <= 0.0)
    }

    fn cells_spanned(&self, alpha: f64) -> f64 {
        1.0 / alpha / self.dx
    }

    fn finest_spacing(&self, alpha: f64) -> f64 {
        1.0 / alpha / self.min_cells
    }

    fn share_spanned(&self, alpha: f64, n: usize) -> f64 {
        1.0 / alpha / (self.dx * n as f64)
    }

    fn is_resolved(&self, alpha: f64) -> bool {
        !((1.0 / alpha) / self.dx < self.min_cells)
    }

    fn is_thin(&self, alpha: f64, n: usize) -> bool {
        !(1.0 / alpha > self.max_share * (self.dx * n as f64))
    }

    fn is_strong_absorber(&self, alpha: f64, largest: f64) -> bool {
        alpha >= 0.5 * largest
    }

    fn is_enough(&self, fraction: f64) -> bool {
        !(fraction < 0.9)
    }

    fn is_strong(&self, p_max: f64, ambient: Primitive) -> bool {
        !(p_max / ambient.p < 10.0)
    }

    fn mean(&self, sum: f64, per: usize) -> f64 {
        sum / per as f64
    }

    fn thickness(&self, per: usize) -> f64 {
        per as f64 * self.dx
    }

    fn is_extinction(&self, alpha: f64) -> bool {
        alpha.is_finite() && alpha >= 0.0
    }
}

/// Share of the half-extent where the absorbing edge lets everything through.
const INTERIOR: f64 = 0.8;
/// Exponent of the absorbing edge.
const EDGE_POWER: f64 = 4.0;
/// The edge lets through `exp(-EDGE_STRENGTH)` at the border of the grid.
const EDGE_STRENGTH: f64 = 20.0;
/// Relative power allowed outside the interior at the start of a run.
const CONTAINMENT: f64 = 1e-9;
/// Fewest samples across a beam width.
const SAMPLES_PER_WIDTH: f64 = 4.0;

/// Scalar optics in double precision on one grid at one wavelength.
#[derive(Debug, Clone, Copy)]
struct Light {
    n: usize,
    dx: f64,
    wavelength: f64,
}

impl Light {
    fn new(n: usize, dx: f64, wavelength: f64) -> Self {
        Light { n, dx, wavelength }
    }

    fn extent(&self) -> f64 {
        self.n as f64 * self.dx
    }

    fn coord(&self, i: usize) -> f64 {
        (i as f64 - self.n as f64 / 2.0) * self.dx
    }

    fn k(&self) -> f64 {
        2.0 * PI / self.wavelength
    }

    fn critical_distance(&self) -> f64 {
        self.n as f64 * self.dx * self.dx / self.wavelength
    }

    fn transform(&self, u: &Plane<Complex64>, back: bool) -> Plane<Complex64> {
        let n = self.n;
        let handler: FftHandler<f64> = FftHandler::new(n);
        let a = Array2::from_shape_vec((n, n), u.as_slice().to_vec()).expect("a square plane");
        let mut b = Array2::zeros((n, n));
        let mut c = Array2::zeros((n, n));
        if back {
            ndifft(&a, &mut b, &handler, 1);
            ndifft(&b, &mut c, &handler, 0);
        } else {
            ndfft(&a, &mut b, &handler, 0);
            ndfft(&b, &mut c, &handler, 1);
        }
        Plane::from_vec(n, n, c.into_raw_vec_and_offset().0).expect("a square plane")
    }
}

impl Optics for Light {
    type Real = f64;

    type Complex = Complex64;

    fn zero(&self) -> f64 {
        0.0
    }

    fn is_zero(&self, x: f64) -> bool {
        x == 0.0
    }

    fn plus(&self, a: f64, b: f64) -> f64 {
        a + b
    }

    fn times(&self, a: f64, b: f64) -> f64 {
        a * b
    }

    fn ratio(&self, a: f64, b: f64) -> f64 {
        a / b
    }

    fn larger(&self, a: f64, b: f64) -> f64 {
        a.max(b)
    }

    fn smaller(&self, a: f64, b: f64) -> f64 {
        a.min(b)
    }

    fn exceeds(&self, a: f64, b: f64) -> bool {
        a > b
    }

    fn is_positive(&self, x: f64) -> bool {
        x > 0.0 && x.is_finite()
    }

    fn same_length(&self, a: f64, b: f64) -> bool {
        a == b
    }

    fn half(&self, x: f64) -> f64 {
        x / 2.0
    }

    fn spacing(&self) -> f64 {
        self.dx
    }

    fn wavelength(&self) -> f64 {
        self.wavelength
    }

    fn is_subcritical(&self, dz: f64) -> bool {
        dz <= self.critical_distance()
    }

    fn wavenumber(&self, frequency: isize) -> f64 {
        2.0 * PI * frequency as f64 / (self.n as f64 * self.dx)
    }

    fn transfer(&self, dz: f64, kx: f64, ky: f64) -> Complex64 {
        let k = self.k();
        let kz2 = k * k - (kx * kx + ky * ky);
        if kz2 >= 0.0 {
            Complex64::from_polar(1.0, dz * kz2.sqrt())
        } else {
            Complex64::new((-dz * (-kz2).sqrt()).exp(), 0.0)
        }
    }

    fn impulse(&self, dz: f64, x: isize, y: isize) -> Complex64 {
        let k = self.k();
        let (x, y) = (x as f64 * self.dx, y as f64 * self.dx);
        let prefactor =
            Complex64::from_polar(1.0, k * dz) / Complex64::new(0.0, self.wavelength * dz);
        prefactor
            * Complex64::from_polar(1.0, k * (x * x + y * y) / (2.0 * dz))
            * (self.dx * self.dx)
    }

    fn forward(&self, u: &Plane<Complex64>) -> Plane<Complex64> {
        self.transform(u, false)
    }

    fn inverse(&self, u: &Plane<Complex64>) -> Plane<Complex64> {
        self.transform(u, true)
    }

    fn product(&self, a: Complex64, b: Complex64) -> Complex64 {
        a * b
    }

    fn intensity(&self, u: Complex64) -> f64 {
        u.norm_sqr()
    }

    fn power(&self, sum: f64) -> f64 {
        sum * (self.dx * self.dx)
    }

    fn gaussian(&self, w0: f64, x: isize, y: isize) -> Complex64 {
        let (x, y) = (x as f64 * self.dx, y as f64 * self.dx);
        Complex64::new((-(x * x + y * y) / (w0 * w0)).exp(), 0.0)
    }

    fn retard(&self, u: Complex64, dn: f64, dz: f64) -> Complex64 {
        u * Complex64::from_polar(1.0, self.k() * dn * dz)
    }

    fn retard_and_decay(&self, u: Complex64, dn: f64, alpha: f64, dz: f64) -> Complex64 {
        u * Complex64::from_polar((-0.5 * alpha * dz).exp(), self.k() * dn * dz)
    }

    fn edge(&self, i: usize) -> f64 {
        let half = self.extent() / 2.0;
        let r0 = INTERIOR * half;
        let r = self.coord(i).abs();
        if r <= r0 {
            1.0
        } else {
            (-EDGE_STRENGTH * ((r - r0) / (half - r0)).powf(EDGE_POWER)).exp()
        }
    }

    fn mask(&self, u: Complex64, m: f64) -> Complex64 {
        u * m
    }

    fn absorb(&self, total: f64, before: f64, after: f64) -> f64 {
        total + (before - after)
    }

    fn phase_jump(&self, a: f64, b: f64, dz: f64) -> f64 {
        (self.k() * (b - a) * dz).abs()
    }

    fn is_aliased(&self, jump: f64) -> bool {
        jump >= PI
    }

    fn is_interior(&self, i: usize) -> bool {
        self.coord(i).abs() <= INTERIOR * (self.extent() / 2.0)
    }

    fn has_power(&self, total: f64) -> bool {
        total > 0.0
    }

    fn is_contained(&self, inside: f64, total: f64) -> bool {
        !(1.0 - inside / total > CONTAINMENT)
    }

    fn add_moment(&self, m: f64, p: f64, i: usize) -> f64 {
        m + p * self.coord(i)
    }

    fn add_spread(&self, v: f64, p: f64, i: usize, centre: f64) -> f64 {
        let d = self.coord(i) - centre;
        v + p * d * d
    }

    fn width(&self, v: f64, total: f64) -> f64 {
        2.0 * (v / total).sqrt()
    }

    fn is_resolved(&self, width: f64) -> bool {
        !(width < SAMPLES_PER_WIDTH * self.dx)
    }
}

const AMBIENT: Primitive = Primitive {
    rho: 1.225,
    u: 0.0,
    p: 101_325.0,
};

const SEED: SeededIgnition<f64> = SeededIgnition {
    centre: 7e-3,
    width: 5e-4,
    pressure: 3e7,
};

type Refusal = LsdError<f64>;

fn grey(alpha: f64) -> Absorption<f64> {
    Absorption::GreyThreshold { alpha, e_ignite: 2e6 }
}

fn line(n: usize, length: f64) -> Line {
    Line::new(IdealGas::AIR, 0.0, length / n as f64, length)
}

fn column(n: usize) -> LsdColumn<Line> {
    LsdColumn::seeded(line(n, 1e-2), n, AMBIENT, SEED, grey(1e4), 1e11)
        .ok()
        .unwrap()
}

/// Air that is an ideal gas, ionizing as the temperature rises.
fn table() -> PlasmaTable<f64> {
    let axes = PlasmaAxes;
    let mut data = Vec::with_capacity(4 * N_T * N_P);
    for prop in 0..4 {
        for i in 0..N_T {
            let t = PlasmaAxes::T_MIN + i as f64 * PlasmaAxes::T_STEP;
            for j in 0..N_P {
                let p = 10f64.powf(PlasmaAxes::P_LOG10_MIN + j as f64 / PlasmaAxes::P_PER_DECADE);
                data.push(match prop {
                    0 => (p / (287.0 * t)).ln(),
                    1 => 717.5 * t,
                    2 => 1.4,
                    _ => (p / (axes.charge() * 1.380_649e-23 * t)).ln() - 7.5e4 / t,
                });
            }
        }
    }
    PlasmaTable::load((4, N_T, N_P), data).ok().unwrap()
}

fn ib(gaunt: f64, ceiling: IonizationCeiling) -> Absorption<f64> {
    Absorption::InverseBremsstrahlung {
        wavelength: 10.6e-6,
        gaunt,
        table: table(),
        ceiling,
    }
}

fn state(t: f64, p: f64) -> Primitive {
    Primitive {
        rho: table().at(&PlasmaAxes, t, p).unwrap().rho,
        u: 0.0,
        p,
    }
}

#[test]
fn cold_air_is_transparent_and_hot_air_absorbs() {
    let mut c = column(256);
    let alpha = c.alpha_profile().unwrap();
    let hot: Vec<usize> = alpha
        .iter()
        .enumerate()
        .filter(|&(_, &a)| a > 0.0)
        .map(|(i, _)| i)
        .collect();
    assert!(!hot.is_empty(), "the seed does not absorb");
    for &i in &hot {
        let x = c.hydro().scheme().x_centre(i);
        assert!((x - 7e-3).abs() <= 3e-4, "cell at x = {x} m should be cold");
    }
}

#[test]
fn deposition_sums_to_the_beam_energy_removed() {
    let mut c = column(256);
    let profile = c.intensity_profile().unwrap();
    let removed = profile[0] - profile[profile.len() - 1];
    let q = c.deposition().unwrap();
    let summed = q.iter().sum::<f64>() * c.hydro().scheme().dx;
    assert!(
        (summed - removed).abs() / removed < 1e-13,
        "absorbed {summed:.9e} vs lost {removed:.9e}"
    );
}

#[test]
fn the_beam_only_decays_and_starts_at_the_incident_intensity() {
    let mut c = column(256);
    let profile = c.intensity_profile().unwrap();
    assert_eq!(profile[0], c.incident_intensity());
    for w in profile.windows(2) {
        assert!(w[1] <= w[0], "the beam grew: {:?} to {:?}", w[0], w[1]);
    }
    assert!(profile[profile.len() - 1] / profile[0] < 1e-2);
}

#[test]
fn the_front_runs_toward_the_laser() {
    let mut c = column(512);
    let x0 = c.front_position().unwrap();
    c.advance_to(2e-7).unwrap();
    let x1 = c.front_position().unwrap();
    assert!(x1 < x0, "the front moved downstream: {x0} to {x1}");
    let d = (x0 - x1) / c.hydro().time();
    assert!((2e3..2e4).contains(&d), "D = {d} m/s is not LSD-like");
}

#[test]
fn an_unresolved_absorption_layer_is_refused() {
    let mut c = column(16);
    let dx = c.hydro().scheme().dx;
    let refusal = c.check_regime().unwrap_err();
    let text = refusal.text();
    assert!(text.contains("unresolved"), "unexpected error: {text}");
    assert!(text.contains("Refine to"), "no remedy offered: {text}");
    let LsdError::Unresolved { cells, finest_dx } = refusal else {
        panic!("another refusal");
    };
    assert!(cells < 4.0 && finest_dx < dx);
    assert!((4.0 * finest_dx - cells * dx).abs() < 1e-15);
}

#[test]
fn a_volumetric_absorber_is_refused_as_out_of_scope() {
    let mut c = LsdColumn::seeded(line(512, 1e-2), 512, AMBIENT, SEED, grey(2e2), 1e11)
        .ok()
        .unwrap();
    let refusal = c.check_regime().unwrap_err();
    let text = refusal.text();
    assert!(text.contains("LSC regime"), "unexpected error: {text}");
    assert_eq!(refusal, LsdError::Volumetric { share: 0.5 });
}

#[test]
fn a_healthy_run_passes_the_regime_check() {
    let mut c = column(512);
    c.advance_to(1e-7).unwrap();
    c.check_regime().unwrap();
    assert!(c.boundaries_undisturbed());
    assert_eq!(c.hottest_temperature(), None);
    assert!(!c.used_singly_ionized_approximation());
}

#[test]
fn the_coupled_budget_closes() {
    let mut c = column(512);
    assert_eq!(c.deposited_energy(), 0.0);
    c.advance_to(1e-7).unwrap();
    assert!(c.deposited_energy() > 0.0);
    assert!(c.energy_residual() < 1e-10, "residual {}", c.energy_residual());
    // The drive goes as far as the time does: at most its fluence is absorbed.
    assert!(c.deposited_energy() <= 1e11 * c.hydro().time() * (1.0 + 1e-12));
}

#[test]
fn the_coupled_step_is_shorter_than_the_bare_one() {
    let mut c = column(256);
    let bare = c.hydro().stable_dt().unwrap();
    let coupled = c.stable_dt().unwrap();
    assert!(coupled < bare && coupled > 0.5 * bare, "{coupled} vs {bare}");
    c.advance(coupled).unwrap();
    assert_eq!(c.hydro().steps(), 1);
    assert_eq!(
        c.advance(1.0),
        Err(LsdError::Hydro(EulerError::CflViolation { step: 1 }))
    );
}

#[test]
fn degenerate_setups_are_refused() {
    let build = |incident: f64, length: f64, seed: SeededIgnition<f64>| -> Option<Refusal> {
        LsdColumn::seeded(line(64, length), 64, AMBIENT, seed, grey(1e4), incident).err()
    };
    assert_eq!(build(-1.0, 1e-2, SEED), Some(LsdError::BadIncident), "negative intensity");
    assert_eq!(build(f64::NAN, 1e-2, SEED), Some(LsdError::BadIncident), "NaN intensity");
    assert_eq!(build(1e11, -1e-2, SEED), Some(LsdError::BadLength), "negative length");
    assert_eq!(
        build(
            1e11,
            1e-2,
            SeededIgnition {
                pressure: AMBIENT.p,
                ..SEED
            }
        ),
        Some(LsdError::BadSeed),
        "a seed at ambient pressure is not a spark"
    );
    assert_eq!(
        build(1e11, 1e-2, SeededIgnition { width: 0.0, ..SEED }),
        Some(LsdError::BadSeed)
    );
    let few = LsdColumn::seeded(line(3, 1e-2), 3, AMBIENT, SEED, grey(1e4), 1e11).err();
    assert_eq!(few, Some(LsdError::Hydro(EulerError::TooFewCells { cells: 3 })));
}

#[test]
fn the_drive_can_be_changed_but_not_to_nonsense() {
    let mut c = column(64);
    assert_eq!(c.set_incident_intensity(0.0), Err(LsdError::BadIncident));
    assert_eq!(c.incident_intensity(), 1e11);
    assert_eq!(c.set_incident_intensity(2e10), Ok(()));
    assert_eq!(c.incident_intensity(), 2e10);
    assert_eq!(c.intensity_profile().unwrap()[0], 2e10);
}

#[test]
fn a_column_that_does_not_absorb_has_no_regime_and_loses_nothing() {
    let mut c = LsdColumn::seeded(
        line(64, 1e-2),
        64,
        AMBIENT,
        SEED,
        Absorption::GreyThreshold { alpha: 1e4, e_ignite: 1e12 },
        1e11,
    )
    .ok()
    .unwrap();
    assert_eq!(c.check_regime(), Err(LsdError::NothingAbsorbs));
    assert_eq!(c.fraction_reaching_front(), Ok(1.0));
    assert_eq!(c.optical_depth(), Ok(0.0));
    assert_eq!(c.transmitted_fraction(), Ok(1.0));
}

#[test]
fn a_weak_seed_is_no_detonation() {
    let weak = SeededIgnition { pressure: 5e5, ..SEED };
    let mut c = LsdColumn::seeded(
        line(512, 1e-2),
        512,
        AMBIENT,
        weak,
        Absorption::GreyThreshold { alpha: 1e4, e_ignite: 5e5 },
        1e11,
    )
    .ok()
    .unwrap();
    let Err(LsdError::WeakFront { ratio }) = c.check_regime() else {
        panic!("strong");
    };
    assert!(ratio < 10.0);
    let faint = SeededIgnition { pressure: 1.5e5, ..SEED };
    let mut c = LsdColumn::seeded(line(64, 1e-2), 64, AMBIENT, faint, grey(1e4), 1e11)
        .ok()
        .unwrap();
    assert_eq!(c.front_position(), None);
    assert_eq!(c.measure_front_speed(1e-9), Err(LsdError::NoFront));
}

#[test]
fn a_front_is_found_half_way_up_the_rise() {
    let k = line(8, 8.0);
    let at = |p: f64| Primitive { p, ..AMBIENT };
    let ambient = at(1.0);
    let flat = vec![at(1.0); 8];
    assert_eq!(find_front(&k, ambient, &flat), None);
    let mut rise = flat.clone();
    rise[4] = at(3.0);
    rise[5] = at(5.0);
    // Level 3 is met exactly at cell 4, whose centre is 4.5.
    assert_eq!(find_front(&k, ambient, &rise), Some(4.5));
    rise[4] = at(2.0);
    // Level 3 is a third of the way from cell 4 to cell 5.
    let x = find_front(&k, ambient, &rise).unwrap();
    assert!((x - (4.5 + 1.0 / 3.0)).abs() < 1e-15);
    let mut edge = flat.clone();
    edge[0] = at(9.0);
    assert_eq!(find_front(&k, ambient, &edge), Some(0.5));
    assert_eq!(sum_of(&k, &[1.0, 2.0, 4.0]), 7.0);
    assert_eq!(max_of(&k, 0.0, &[1.0, 4.0, 2.0]), 4.0);
    assert_eq!(max_of(&k, 0.0, &[-1.0, -4.0]), 0.0);
}

#[test]
fn inverse_bremsstrahlung_is_the_right_order_for_an_lsd_front() {
    let k = line(64, 1e-2);
    let (a, t) = ib(1.0, IonizationCeiling::Flag)
        .sample(&k, state(18_000.0, 1e7))
        .unwrap();
    assert!((1e2..1e5).contains(&a), "absorption {a:.4e} 1/m is not front-like");
    assert!((t.unwrap() - 18_000.0).abs() < 1.0);
}

#[test]
fn inverse_bremsstrahlung_scales_as_the_formula_says() {
    let k = line(64, 1e-2);
    let w = state(15_000.0, 1e6);
    let a1 = ib(1.0, IonizationCeiling::Flag).coefficient(&k, w).unwrap();
    let a2 = ib(2.0, IonizationCeiling::Flag).coefficient(&k, w).unwrap();
    assert!((a2 / a1 - 2.0).abs() < 1e-12, "the Gaunt factor must enter linearly");
    let cold = ib(1.0, IonizationCeiling::Flag)
        .coefficient(&k, state(300.0, 1e5))
        .unwrap();
    assert!(cold < 1e-20 * a1, "cold air absorbs: {cold:.3e} 1/m");
}

#[test]
fn the_second_ionization_ceiling_is_enforced() {
    let k = line(64, 1e-2);
    let w = state(25_000.0, 1e7);
    match ib(1.0, IonizationCeiling::Refuse).sample(&k, w) {
        Err(LsdError::AboveCeiling { temperature }) => {
            assert!((temperature - 25_000.0).abs() < 1.0, "T = {temperature}");
        }
        other => panic!("unexpected: {other:?}"),
    }
    assert!(ib(1.0, IonizationCeiling::Flag).sample(&k, w).is_ok(), "Flag must proceed");
    let off = Primitive { p: 1e9, ..w };
    assert_eq!(
        ib(1.0, IonizationCeiling::Flag).sample(&k, off),
        Err(LsdError::Table(TableError::PressureOutside))
    );
}

#[test]
fn a_hot_column_goes_on_record() {
    // A seed at 25,000 K at ambient density.
    let hot = SeededIgnition {
        pressure: 1.225 * 287.0 * 25_000.0,
        ..SEED
    };
    let ambient = Primitive { p: 1.225 * 287.0 * 300.0, ..AMBIENT };
    let build = |ceiling: IonizationCeiling| {
        LsdColumn::seeded(line(64, 1e-2), 64, ambient, hot, ib(1.0, ceiling), 1e11)
            .ok()
            .unwrap()
    };
    let mut c = build(IonizationCeiling::Flag);
    assert_eq!(c.hottest_temperature(), None);
    c.alpha_profile().unwrap();
    assert!((c.hottest_temperature().unwrap() / 25_000.0 - 1.0).abs() < 1e-3);
    assert!(c.used_singly_ionized_approximation());
    let mut c = build(IonizationCeiling::Refuse);
    assert!(matches!(c.alpha_profile(), Err(LsdError::AboveCeiling { .. })));
}

#[test]
fn plasma_column_is_absorption_only() {
    let mut c = column(64);
    let light = Light { n: 8, dx: 1e-3, wavelength: 1e-6 };
    let col = PlasmaColumn::from_column(&mut c, 8).unwrap();
    assert_eq!(col.slab_count(&light), Some(64));
    let dn = col.index_perturbation(&light, 0);
    assert!(dn.as_slice().iter().all(|&v| v == 0.0));
    assert_eq!((dn.height(), dn.width()), (8, 8));
    assert!(col.extinction(&light, 0).is_none(), "cold air should not absorb");
    let hot = (0..64).filter_map(|j| col.extinction(&light, j)).count();
    assert!(hot > 0, "no absorbing slab");
    assert!(col.extinction(&light, 64).is_none());
}

#[test]
fn plasma_column_resampling_preserves_optical_depth() {
    let mut c = column(512);
    c.advance_to(1e-7).unwrap();
    let light = Light { n: 4, dx: 1e-3, wavelength: 1e-6 };
    let tau = c.optical_depth().unwrap();
    for n_slabs in [512usize, 256, 128, 64, 8] {
        let (col, dz) = PlasmaColumn::from_column_resampled(&mut c, 4, n_slabs).unwrap();
        let binned: f64 = (0..n_slabs)
            .filter_map(|j| col.extinction(&light, j).map(|a| *a.at(0, 0) * dz))
            .sum();
        assert!(
            (binned - tau).abs() <= 1e-12 * tau,
            "{n_slabs} slabs: depth {binned:.12e} vs {tau:.12e}"
        );
    }
    for ragged in [7usize, 0, 1024] {
        assert_eq!(
            PlasmaColumn::from_column_resampled(&mut c, 4, ragged).err(),
            Some(LsdError::RaggedBinning { cells: 512, slabs: ragged })
        );
    }
}

#[test]
fn transmitted_fraction_is_exp_minus_tau() {
    let mut c = column(256);
    let tau = c.optical_depth().unwrap();
    let t = c.transmitted_fraction().unwrap();
    assert!(tau > 0.0, "the seed should be optically thick");
    assert!((t - (-tau).exp()).abs() < 1e-15);
    let profile = c.intensity_profile().unwrap();
    let marched = profile[profile.len() - 1] / profile[0];
    assert!(
        (t / marched - 1.0).abs() < 1e-12,
        "exp(-depth) = {t:.9e} vs the marched {marched:.9e}"
    );
}

#[test]
fn plasma_column_refuses_nonsense() {
    let k = line(64, 1e-2);
    assert_eq!(
        PlasmaColumn::new(&k, 0, vec![1.0]).err(),
        Some(LsdError::EmptyColumn { n: 0, slabs: 1 }),
        "empty grid"
    );
    assert_eq!(
        PlasmaColumn::new(&k, 8, vec![]).err(),
        Some(LsdError::EmptyColumn { n: 8, slabs: 0 }),
        "no slabs"
    );
    assert_eq!(
        PlasmaColumn::new(&k, 8, vec![1.0, -1.0]).err(),
        Some(LsdError::BadExtinction { slab: 1 }),
        "negative extinction"
    );
    assert_eq!(
        PlasmaColumn::new(&k, 8, vec![f64::NAN]).err(),
        Some(LsdError::BadExtinction { slab: 0 }),
        "NaN extinction"
    );
}

#[test]
fn measured_speed_is_that_of_the_front() {
    let mut c = column(256);
    c.advance_to(5e-8).unwrap();
    let (x0, t0) = (c.front_position().unwrap(), c.hydro().time());
    let d = c.measure_front_speed(5e-8).unwrap();
    let (x1, t1) = (c.front_position().unwrap(), c.hydro().time());
    assert_eq!(d, (x0 - x1) / (t1 - t0));
    assert!((t1 - 1e-7).abs() < 1e-20);
}

#[test]
fn deposits_are_never_negative() {
    let mut c = column(256);
    c.advance_to(5e-8).unwrap();
    let q = c.deposition().unwrap();
    assert!(q.iter().all(|&x| x >= 0.0));
    assert!(q.iter().any(|&x| x > 0.0));
}

#[test]
fn a_march_ends_on_time() {
    let mut c = column(256);
    for t in [3e-8, 5e-8] {
        c.advance_to(t).unwrap();
        assert!((c.hydro().time() - t).abs() < 1e-20, "at {} for {t}", c.hydro().time());
    }
    // A time that is past is left alone.
    c.advance_to(1e-8).unwrap();
    assert!(c.hydro().time() > 4.9e-8);
}

#[test]
fn the_beam_never_brightens() {
    let mut c = column(256);
    c.advance_to(5e-8).unwrap();
    let i = c.intensity_profile().unwrap();
    assert!(i.windows(2).all(|w| w[1] <= w[0]));
    assert!(i[i.len() - 1] < i[0]);
}

#[test]
fn a_column_arrives_the_same_each_time() {
    let (mut a, mut b) = (column(128), column(128));
    a.advance_to(5e-8).unwrap();
    b.advance_to(5e-8).unwrap();
    assert_eq!(a.hydro().cells(), b.hydro().cells());
    assert_eq!((a.hydro().time(), a.hydro().steps()), (b.hydro().time(), b.hydro().steps()));
    assert_eq!(a.deposited_energy(), b.deposited_energy());
}

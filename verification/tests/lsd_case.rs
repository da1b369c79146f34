use beamprop::breakdown0d::{
    AirBreakdown, CascadeModel, Focus, Gas, Kinetics, MonatomicGas,
};
use beamprop::breakdown_case::Setup;
use beamprop::euler1d::{Conserved, Scheme1d};
use beamprop::field::ScaleError;
use beamprop::lsd::{Beam1d, LsdError, SeededIgnition};
use beamprop::lsd_case::{
    front_speed, light_spark, peak_state, run_lsd, LsdCase, LsdCaseError, LsdParams,
    FOCAL_SAMPLES,
};
use beamprop::optics::Optics;
use beamprop::plane::Plane;
use beamprop::plasmaprops::{PlasmaScale, PlasmaTable, N_P, N_T};
use beamprop::riemann::Acoustics;
use beamprop::special::Gamma;
use beamprop::table::Tabulation;
use ndarray::Array2;
use ndrustfft::{ndfft, ndifft, FftHandler};
use num_complex::Complex64;
use std::f64::consts::PI;

/// Density, velocity and pressure.
type Primitive = beamprop::euler1d::Primitive<f64>;

/// A calorically perfect gas.
#[derive(Debug, Clone, Copy, PartialEq)]
struct IdealGas {
    gamma: f64,
}

impl IdealGas {
    const AIR: Self = Self { gamma: 1.4 };

    fn speed_of_sound(&self, rho: f64, p: f64) -> f64 {
        (self.gamma * p / rho).sqrt()
    }

    fn specific_internal_energy(&self, rho: f64, p: f64) -> f64 {
        p / ((self.gamma - 1.0) * rho)
    }

    fn to_conserved(&self, w: Primitive) -> Conserved<f64> {
        Conserved {
            rho: w.rho,
            mom: w.rho * w.u,
            energy: w.p / (self.gamma - 1.0) + 0.5 * w.rho * w.u * w.u,
        }
    }

    fn to_primitive(&self, u: Conserved<f64>) -> Primitive {
        let v = u.mom / u.rho;
        Primitive {
            rho: u.rho,
            u: v,
            p: (self.gamma - 1.0) * (u.energy - 0.5 * u.mom * v),
        }
    }
}

/// A positive, finite number; not a number is neither.
fn positive(x: f64) -> bool {
    x > 0.0 && x.is_finite()
}

impl Acoustics for IdealGas {
    type Real = f64;

    fn zero(&self) -> f64 {
        0.0
    }

    fn plus(&self, a: f64, b: f64) -> f64 {
        a + b
    }

    fn minus(&self, a: f64, b: f64) -> f64 {
        a - b
    }

    fn times(&self, a: f64, b: f64) -> f64 {
        a * b
    }

    fn half(&self, x: f64) -> f64 {
        0.5 * x
    }

    fn smaller(&self, a: f64, b: f64) -> f64 {
        a.min(b)
    }

    fn larger(&self, a: f64, b: f64) -> f64 {
        a.max(b)
    }

    fn root(&self, x: f64) -> f64 {
        x.sqrt()
    }

    fn opposes(&self, a: f64, b: f64) -> bool {
        a * b <= 0.0
    }

    fn is_flatter(&self, a: f64, b: f64) -> bool {
        a.abs() < b.abs()
    }

    fn exceeds_zero(&self, x: f64) -> bool {
        x > 0.0
    }

    fn is_forward(&self, x: f64) -> bool {
        x >= 0.0
    }

    fn is_backward(&self, x: f64) -> bool {
        x <= 0.0
    }

    fn flux(&self, u: Conserved<f64>) -> Conserved<f64> {
        let w = self.to_primitive(u);
        Conserved {
            rho: u.mom,
            mom: u.mom * w.u + w.p,
            energy: (u.energy + w.p) * w.u,
        }
    }

    fn velocity(&self, u: Conserved<f64>) -> f64 {
        self.to_primitive(u).u
    }

    fn sound_speed(&self, u: Conserved<f64>) -> f64 {
        let w = self.to_primitive(u);
        self.speed_of_sound(w.rho, w.p)
    }

    fn pressure(&self, u: Conserved<f64>) -> f64 {
        self.to_primitive(u).p
    }

    fn roe(&self, left: Conserved<f64>, right: Conserved<f64>) -> (f64, f64) {
        let (wl, wr) = (self.to_primitive(left), self.to_primitive(right));
        let (sl, sr) = (wl.rho.sqrt(), wr.rho.sqrt());
        let u = (sl * wl.u + sr * wr.u) / (sl + sr);
        let hl = (left.energy + wl.p) / wl.rho;
        let hr = (right.energy + wr.p) / wr.rho;
        let h = (sl * hl + sr * hr) / (sl + sr);
        (u, (self.gamma - 1.0) * (h - 0.5 * u * u))
    }

    fn contact(&self, left: Conserved<f64>, right: Conserved<f64>, s_left: f64, s_right: f64) -> f64 {
        let (wl, wr) = (self.to_primitive(left), self.to_primitive(right));
        let ml = wl.rho * (s_left - wl.u);
        let mr = wr.rho * (s_right - wr.u);
        (wr.p - wl.p + ml * wl.u - mr * wr.u) / (ml - mr)
    }

    fn star(&self, u: Conserved<f64>, s: f64, s_star: f64) -> Conserved<f64> {
        let w = self.to_primitive(u);
        let coef = w.rho * (s - w.u) / (s - s_star);
        Conserved {
            rho: coef,
            mom: coef * s_star,
            energy: coef
                * (u.energy / w.rho + (s_star - w.u) * (s_star + w.p / (w.rho * (s - w.u)))),
        }
    }
}

/// A gas on a uniform line.
#[derive(Debug, Clone, Copy, PartialEq)]
struct Line {
    gas: IdealGas,
    x_min: f64,
    dx: f64,
    length: f64,
    /// Fewest cells that an absorption length may span.
    min_cells: f64,
    /// Largest share of the line that an absorption length may span.
    max_share: f64,
}

impl Line {
    /// A line on its own.
    fn new(gas: IdealGas, x_min: f64, dx: f64, length: f64) -> Self {
        Self {
            gas,
            x_min,
            dx,
            length,
            min_cells: 4.0,
            max_share: 0.25,
        }
    }

    /// A pencil of a wider beam.
    fn pencil(gas: IdealGas, dx: f64, length: f64) -> Self {
        Self {
            min_cells: 5.0,
            max_share: 0.1,
            ..Self::new(gas, 0.0, dx, length)
        }
    }
}

impl Acoustics for Line {
    type Real = f64;

    fn zero(&self) -> f64 {
        Acoustics::zero(&self.gas)
    }

    fn plus(&self, a: f64, b: f64) -> f64 {
        Acoustics::plus(&self.gas, a, b)
    }

    fn minus(&self, a: f64, b: f64) -> f64 {
        Acoustics::minus(&self.gas, a, b)
    }

    fn times(&self, a: f64, b: f64) -> f64 {
        Acoustics::times(&self.gas, a, b)
    }

    fn half(&self, x: f64) -> f64 {
        Acoustics::half(&self.gas, x)
    }

    fn smaller(&self, a: f64, b: f64) -> f64 {
        Acoustics::smaller(&self.gas, a, b)
    }

    fn larger(&self, a: f64, b: f64) -> f64 {
        Acoustics::larger(&self.gas, a, b)
    }

    fn root(&self, x: f64) -> f64 {
        Acoustics::root(&self.gas, x)
    }

    fn opposes(&self, a: f64, b: f64) -> bool {
        Acoustics::opposes(&self.gas, a, b)
    }

    fn is_flatter(&self, a: f64, b: f64) -> bool {
        Acoustics::is_flatter(&self.gas, a, b)
    }

    fn exceeds_zero(&self, x: f64) -> bool {
        Acoustics::exceeds_zero(&self.gas, x)
    }

    fn is_forward(&self, x: f64) -> bool {
        Acoustics::is_forward(&self.gas, x)
    }

    fn is_backward(&self, x: f64) -> bool {
        Acoustics::is_backward(&self.gas, x)
    }

    fn flux(&self, u: Conserved<f64>) -> Conserved<f64> {
        Acoustics::flux(&self.gas, u)
    }

    fn velocity(&self, u: Conserved<f64>) -> f64 {
        Acoustics::velocity(&self.gas, u)
    }

    fn sound_speed(&self, u: Conserved<f64>) -> f64 {
        Acoustics::sound_speed(&self.gas, u)
    }

    fn pressure(&self, u: Conserved<f64>) -> f64 {
        Acoustics::pressure(&self.gas, u)
    }

    fn roe(&self, left: Conserved<f64>, right: Conserved<f64>) -> (f64, f64) {
        Acoustics::roe(&self.gas, left, right)
    }

    fn contact(&self, left: Conserved<f64>, right: Conserved<f64>, s_left: f64, s_right: f64) -> f64 {
        Acoustics::contact(&self.gas, left, right, s_left, s_right)
    }

    fn star(&self, u: Conserved<f64>, s: f64, s_star: f64) -> Conserved<f64> {
        Acoustics::star(&self.gas, u, s, s_star)
    }
}

impl Scheme1d for Line {
    fn spacing_is_valid(&self) -> bool {
        positive(self.dx)
    }

    fn admits(&self, w: Primitive) -> bool {
        positive(w.rho) && positive(w.p)
    }

    fn to_conserved(&self, w: Primitive) -> Conserved<f64> {
        self.gas.to_conserved(w)
    }

    fn to_primitive(&self, u: Conserved<f64>) -> Primitive {
        self.gas.to_primitive(u)
    }

    fn is_physical(&self, u: Conserved<f64>) -> bool {
        let w = self.gas.to_primitive(u);
        positive(w.rho) && positive(w.p) && w.u.is_finite()
    }

    fn is_positive(&self, x: f64) -> bool {
        positive(x)
    }

    fn is_source_interval(&self, dt: f64) -> bool {
        dt.is_finite() && !(dt < 0.0)
    }

    fn default_cfl(&self) -> f64 {
        0.8
    }

    fn cfl_is_valid(&self, cfl: f64) -> bool {
        positive(cfl) && !(cfl > 0.8)
    }

    fn wave_speed(&self, u: Conserved<f64>) -> f64 {
        let w = self.gas.to_primitive(u);
        w.u.abs() + self.gas.speed_of_sound(w.rho, w.p)
    }

    fn courant_step(&self, cfl: f64, speed: f64) -> f64 {
        cfl * self.dx / speed
    }

    fn violates(&self, dt: f64, limit: f64) -> bool {
        dt > limit * (1.0 + 1e-12)
    }

    fn is_before(&self, t: f64, t_end: f64) -> bool {
        t < t_end
    }

    fn clip(&self, dt: f64, t: f64, t_end: f64) -> f64 {
        dt.min(t_end - t)
    }

    fn x_centre(&self, i: usize) -> f64 {
        self.x_min + (i as f64 + 0.5) * self.dx
    }

    fn half_weight(&self, dt: f64) -> f64 {
        0.5 * dt / self.dx
    }

    fn weight(&self, dt: f64) -> f64 {
        dt / self.dx
    }

    fn heat(&self, dt: f64, energy: f64, rate: f64) -> f64 {
        energy + dt * rate
    }

    fn integral(&self, sum: f64) -> f64 {
        sum * self.dx
    }
}

const SECOND_IONIZATION_K: f64 = 20_000.0;

/// The axes of the plasma table.
#[derive(Debug, Clone, Copy, PartialEq)]
struct PlasmaAxes;

impl PlasmaAxes {
    const T_MIN: f64 = 200.0;
    const T_STEP: f64 = 50.0;
    const P_LOG10_MIN: f64 = 4.0;
    const P_PER_DECADE: f64 = 8.0;
}

impl Tabulation for PlasmaAxes {
    type Real = f64;

    fn t_position(&self, t: f64) -> f64 {
        (t - Self::T_MIN) / Self::T_STEP
    }

    fn p_position(&self, p: f64) -> f64 {
        (p.log10() - Self::P_LOG10_MIN) * Self::P_PER_DECADE
    }

    fn is_on_axis(&self, x: f64, last: usize) -> bool {
        (0.0..=last as f64).contains(&x)
    }

    fn node(&self, x: f64) -> usize {
        x.floor() as usize
    }

    fn past(&self, x: f64, node: usize) -> f64 {
        x - node as f64
    }

    fn blend(&self, c: (f64, f64, f64, f64), ft: f64, fp: f64) -> f64 {
        c.0 * (1.0 - ft) * (1.0 - fp) + c.1 * ft * (1.0 - fp) + c.2 * (1.0 - ft) * fp + c.3 * ft * fp
    }
}

impl PlasmaScale for PlasmaAxes {
    fn second_ionization(&self) -> f64 {
        SECOND_IONIZATION_K
    }

    fn is_finite(&self, x: f64) -> bool {
        x.is_finite()
    }

    fn is_positive(&self, x: f64) -> bool {
        !(x <= 0.0)
    }

    fn exponential(&self, x: f64) -> f64 {
        x.exp()
    }

    fn ratio(&self, a: f64, b: f64) -> f64 {
        a / b
    }

    fn charge(&self) -> f64 {
        1.0
    }

    fn coldest(&self) -> f64 {
        Self::T_MIN
    }

    fn hottest(&self) -> f64 {
        Self::T_MIN + (beamprop::plasmaprops::N_T - 1) as f64 * Self::T_STEP
    }

    fn is_between(&self, x: f64, lo: f64, hi: f64) -> bool {
        (lo..=hi).contains(&x)
    }

    fn exceeds(&self, a: f64, b: f64) -> bool {
        a > b
    }

    fn midpoint(&self, lo: f64, hi: f64) -> f64 {
        0.5 * (lo + hi)
    }
}

impl Beam1d for Line {
    type Axes = PlasmaAxes;

    fn axes(&self) -> PlasmaAxes {
        PlasmaAxes
    }

    fn internal_energy(&self, w: Primitive) -> f64 {
        self.gas.specific_internal_energy(w.rho, w.p)
    }

    fn exceeds(&self, a: f64, b: f64) -> bool {
        a > b
    }

    fn reaches(&self, a: f64, b: f64) -> bool {
        a >= b
    }

    fn one(&self) -> f64 {
        1.0
    }

    fn lowest(&self) -> f64 {
        f64::NEG_INFINITY
    }

    fn ratio(&self, a: f64, b: f64) -> f64 {
        a / b
    }

    fn free_free(&self, wavelength: f64, gaunt: f64, z: f64, n_e: f64, n_i: f64, t: f64) -> f64 {
        let nu = 299_792_458.0 / wavelength;
        let x = 6.626_070_15e-34 * nu / (1.380_649e-23 * t);
        3.7e-2 * gaunt * z * z * n_e * n_i / (t.sqrt() * nu * nu * nu) * (-(-x).exp_m1())
    }

    fn attenuate(&self, intensity: f64, alpha: f64) -> f64 {
        intensity * (-alpha * self.dx).exp()
    }

    fn absorbed(&self, entering: f64, leaving: f64) -> f64 {
        (entering - leaving) / self.dx
    }

    fn bank(&self, total: f64, dt: f64, sum: f64) -> f64 {
        total + dt * self.dx * sum
    }

    fn budget_gap(&self, energy: f64, initial: f64, deposited: f64) -> f64 {
        ((energy - initial) - deposited).abs() / deposited.abs().max(f64::MIN_POSITIVE)
    }

    fn predicted_speed(&self, w: Primitive, q: f64, dt: f64) -> f64 {
        let p = w.p + (self.gas.gamma - 1.0) * q * 0.5 * dt;
        w.u.abs() + self.gas.speed_of_sound(w.rho, p.max(w.p))
    }

    fn is_settled(&self, next: f64, dt: f64) -> bool {
        (next - dt).abs() <= 1e-10 * dt
    }

    fn shave(&self, dt: f64) -> f64 {
        dt * (1.0 - 1e-9)
    }

    fn is_front(&self, p_max: f64, ambient: Primitive) -> bool {
        !(p_max < 2.0 * ambient.p)
    }

    fn half_rise(&self, p_max: f64, ambient: Primitive) -> f64 {
        ambient.p + 0.5 * (p_max - ambient.p)
    }

    fn crossing(&self, level: f64, before: Primitive, at: Primitive, i: usize) -> f64 {
        let f = (level - before.p) / (at.p - before.p);
        self.x_centre(i - 1) + f * self.dx
    }

    fn mean_speed(&self, x0: f64, x1: f64, t0: f64, t1: f64) -> f64 {
        (x0 - x1) / (t1 - t0)
    }

    fn transmission(&self, depth: f64) -> f64 {
        (-depth).exp()
    }

    fn is_quiet(&self, w: Primitive, ambient: Primitive) -> bool {
        (w.p - ambient.p).abs() <= 1e-9 * ambient.p
            && (w.rho - ambient.rho).abs() <= 1e-9 * ambient.rho
            && w.u == 0.0
    }

    fn length_is_valid(&self) -> bool {
        positive(self.length)
    }

    fn is_hot_spot(&self, seed: SeededIgnition<f64>, ambient: Primitive) -> bool {
        positive(seed.width) && !(seed.pressure <= ambient.p)
    }

    fn is_in_seed(&self, seed: SeededIgnition<f64>, x: f64) -> bool {
        (x - seed.centre).abs() <= 0.5 * seed.width
    }

    fn absorbs(&self, alpha: f64) -> bool {
        !(alpha <= 0.0)
    }

    fn cells_spanned(&self, alpha: f64) -> f64 {
        1.0 / alpha / self.dx
    }

    fn finest_spacing(&self, alpha: f64) -> f64 {
        1.0 / alpha / self.min_cells
    }

    fn share_spanned(&self, alpha: f64, n: usize) -> f64 {
        1.0 / alpha / (self.dx * n as f64)
    }

    fn is_resolved(&self, alpha: f64) -> bool {
        !((1.0 / alpha) / self.dx < self.min_cells)
    }

    fn is_thin(&self, alpha: f64, n: usize) -> bool {
        !(1.0 / alpha > self.max_share * (self.dx * n as f64))
    }

    fn is_strong_absorber(&self, alpha: f64, largest: f64) -> bool {
        alpha >= 0.5 * largest
    }

    fn is_enough(&self, fraction: f64) -> bool {
        !(fraction < 0.9)
    }

    fn is_strong(&self, p_max: f64, ambient: Primitive) -> bool {
        !(p_max / ambient.p < 10.0)
    }

    fn mean(&self, sum: f64, per: usize) -> f64 {
        sum / per as f64
    }

    fn thickness(&self, per: usize) -> f64 {
        per as f64 * self.dx
    }

    fn is_extinction(&self, alpha: f64) -> bool {
        alpha.is_finite() && alpha >= 0.0
    }
}

/// Share of the half-extent where the absorbing edge lets everything through.
const INTERIOR: f64 = 0.8;
/// Exponent of the absorbing edge.
const EDGE_POWER: f64 = 4.0;
/// The edge lets through `exp(-EDGE_STRENGTH)` at the border of the grid.
const EDGE_STRENGTH: f64 = 20.0;
/// Relative power allowed outside the interior at the start of a run.
const CONTAINMENT: f64 = 1e-9;
/// Fewest samples across a beam width.
const SAMPLES_PER_WIDTH: f64 = 4.0;

/// Scalar optics in double precision on one grid at one wavelength.
#[derive(Debug, Clone, Copy)]
struct Light {
    n: usize,
    dx: f64,
    wavelength: f64,
}

impl Light {
    fn new(n: usize, dx: f64, wavelength: f64) -> Self {
        Light { n, dx, wavelength }
    }

    fn extent(&self) -> f64 {
        self.n as f64 * self.dx
    }

    fn coord(&self, i: usize) -> f64 {
        (i as f64 - self.n as f64 / 2.0) * self.dx
    }

    fn k(&self) -> f64 {
        2.0 * PI / self.wavelength
    }

    fn critical_distance(&self) -> f64 {
        self.n as f64 * self.dx * self.dx / self.wavelength
    }

    fn transform(&self, u: &Plane<Complex64>, back: bool) -> Plane<Complex64> {
        let n = self.n;
        let handler: FftHandler<f64> = FftHandler::new(n);
        let a = Array2::from_shape_vec((n, n), u.as_slice().to_vec()).expect("a square plane");
        let mut b = Array2::zeros((n, n));
        let mut c = Array2::zeros((n, n));
        if back {
            ndifft(&a, &mut b, &handler, 1);
            ndifft(&b, &mut c, &handler, 0);
        } else {
            ndfft(&a, &mut b, &handler, 0);
            ndfft(&b, &mut c, &handler, 1);
        }
        Plane::from_vec(n, n, c.into_raw_vec_and_offset().0).expect("a square plane")
    }
}

impl Optics for Light {
    type Real = f64;

    type Complex = Complex64;

    fn zero(&self) -> f64 {
        0.0
    }

    fn is_zero(&self, x: f64) -> bool {
        x == 0.0
    }

    fn plus(&self, a: f64, b: f64) -> f64 {
        a + b
    }

    fn times(&self, a: f64, b: f64) -> f64 {
        a * b
    }

    fn ratio(&self, a: f64, b: f64) -> f64 {
        a / b
    }

    fn larger(&self, a: f64, b: f64) -> f64 {
        a.max(b)
    }

    fn smaller(&self, a: f64, b: f64) -> f64 {
        a.min(b)
    }

    fn exceeds(&self, a: f64, b: f64) -> bool {
        a > b
    }

    fn is_positive(&self, x: f64) -> bool {
        x > 0.0 && x.is_finite()
    }

    fn same_length(&self, a: f64, b: f64) -> bool {
        a == b
    }

    fn half(&self, x: f64) -> f64 {
        x / 2.0
    }

    fn spacing(&self) -> f64 {
        self.dx
    }

    fn wavelength(&self) -> f64 {
        self.wavelength
    }

    fn is_subcritical(&self, dz: f64) -> bool {
        dz <= self.critical_distance()
    }

    fn wavenumber(&self, frequency: isize) -> f64 {
        2.0 * PI * frequency as f64 / (self.n as f64 * self.dx)
    }

    fn transfer(&self, dz: f64, kx: f64, ky: f64) -> Complex64 {
        let k = self.k();
        let kz2 = k * k - (kx * kx + ky * ky);
        if kz2 >= 0.0 {
            Complex64::from_polar(1.0, dz * kz2.sqrt())
        } else {
            Complex64::new((-dz * (-kz2).sqrt()).exp(), 0.0)
        }
    }

    fn impulse(&self, dz: f64, x: isize, y: isize) -> Complex64 {
        let k = self.k();
        let (x, y) = (x as f64 * self.dx, y as f64 * self.dx);
        let prefactor =
            Complex64::from_polar(1.0, k * dz) / Complex64::new(0.0, self.wavelength * dz);
        prefactor
            * Complex64::from_polar(1.0, k * (x * x + y * y) / (2.0 * dz))
            * (self.dx * self.dx)
    }

    fn forward(&self, u: &Plane<Complex64>) -> Plane<Complex64> {
        self.transform(u, false)
    }

    fn inverse(&self, u: &Plane<Complex64>) -> Plane<Complex64> {
        self.transform(u, true)
    }

    fn product(&self, a: Complex64, b: Complex64) -> Complex64 {
        a * b
    }

    fn intensity(&self, u: Complex64) -> f64 {
        u.norm_sqr()
    }

    fn power(&self, sum: f64) -> f64 {
        sum * (self.dx * self.dx)
    }

    fn gaussian(&self, w0: f64, x: isize, y: isize) -> Complex64 {
        let (x, y) = (x as f64 * self.dx, y as f64 * self.dx);
        Complex64::new((-(x * x + y * y) / (w0 * w0)).exp(), 0.0)
    }

    fn retard(&self, u: Complex64, dn: f64, dz: f64) -> Complex64 {
        u * Complex64::from_polar(1.0, self.k() * dn * dz)
    }

    fn retard_and_decay(&self, u: Complex64, dn: f64, alpha: f64, dz: f64) -> Complex64 {
        u * Complex64::from_polar((-0.5 * alpha * dz).exp(), self.k() * dn * dz)
    }

    fn edge(&self, i: usize) -> f64 {
        let half = self.extent() / 2.0;
        let r0 = INTERIOR * half;
        let r = self.coord(i).abs();
        if r <= r0 {
            1.0
        } else {
            (-EDGE_STRENGTH * ((r - r0) / (half - r0)).powf(EDGE_POWER)).exp()
        }
    }

    fn mask(&self, u: Complex64, m: f64) -> Complex64 {
        u * m
    }

    fn absorb(&self, total: f64, before: f64, after: f64) -> f64 {
        total + (before - after)
    }

    fn phase_jump(&self, a: f64, b: f64, dz: f64) -> f64 {
        (self.k() * (b - a) * dz).abs()
    }

    fn is_aliased(&self, jump: f64) -> bool {
        jump >= PI
    }

    fn is_interior(&self, i: usize) -> bool {
        self.coord(i).abs() <= INTERIOR * (self.extent() / 2.0)
    }

    fn has_power(&self, total: f64) -> bool {
        total > 0.0
    }

    fn is_contained(&self, inside: f64, total: f64) -> bool {
        !(1.0 - inside / total > CONTAINMENT)
    }

    fn add_moment(&self, m: f64, p: f64, i: usize) -> f64 {
        m + p * self.coord(i)
    }

    fn add_spread(&self, v: f64, p: f64, i: usize, centre: f64) -> f64 {
        let d = self.coord(i) - centre;
        v + p * d * d
    }

    fn width(&self, v: f64, total: f64) -> f64 {
        2.0 * (v / total).sqrt()
    }

    fn is_resolved(&self, width: f64) -> bool {
        !(width < SAMPLES_PER_WIDTH * self.dx)
    }
}

const E_CHARGE: f64 = 1.602_176_634e-19;
const M_E: f64 = 9.109_383_701_5e-31;
const C_LIGHT: f64 = 299_792_458.0;
const EPS0: f64 = 8.854_187_812_8e-12;
const HBAR: f64 = 1.054_571_817e-34;
const P_REF: f64 = 101_325.0;
const HARTREE: f64 = 4.359_744_722_207_1e-18;
const F_ATOMIC: f64 = 5.142_206_747_63e11;
/// Largest exponent that is used.
const MAX_EXPONENT: f64 = 700.0;
/// Ion pairs that cosmic rays and the ground make, per cubic metre and second.
const ION_PAIR_PRODUCTION: f64 = 1.0e7;
/// Effective charge that an electron leaving oxygen sees.
const Z_EFF_O2: f64 = 0.53;

/// The Lanczos series of the gamma function.
#[derive(Debug, Clone, Copy, PartialEq)]
struct Lanczos;

const LANCZOS: [f64; 9] = [
    0.999_999_999_999_809_9,
    676.520_368_121_885_1,
    -1_259.139_216_722_402_8,
    771.323_428_777_653_1,
    -176.615_029_162_140_6,
    12.507_343_278_686_905,
    -0.138_571_095_265_720_12,
    9.984_369_578_019_572e-6,
    1.505_632_735_149_311_6e-7,
];

impl Gamma for Lanczos {
    type Real = f64;

    fn minus(&self, a: f64, b: f64) -> f64 {
        a - b
    }

    fn is_reflected(&self, x: f64) -> bool {
        x < 0.5
    }

    fn mirror(&self, x: f64) -> f64 {
        1.0 - x
    }

    fn log_product(&self, x: f64) -> f64 {
        (PI / (PI * x).sin()).abs().ln()
    }

    fn first_term(&self) -> f64 {
        LANCZOS[0]
    }

    fn add_term(&self, series: f64, x: f64, i: usize) -> f64 {
        series + LANCZOS[i] / (x - 1.0 + i as f64)
    }

    fn from_series(&self, x: f64, series: f64) -> f64 {
        let z = x - 1.0;
        let t = z + 7.0 + 0.5;
        0.5 * (2.0 * PI).ln() + (z + 0.5) * t.ln() - t + series.ln()
    }
}

/// The kinetics of a gas in SI units, with the reference point of the measured
/// multiphoton law: its intensity and, if it is given, its rate.
#[derive(Debug, Clone, Copy, PartialEq)]
struct Air {
    mpi_intensity: f64,
    mpi_rate: Option<f64>,
}

const AIR: Air = Air {
    mpi_intensity: 4.42e13,
    mpi_rate: None,
};

impl Air {
    /// Dry air.
    fn dry_air() -> Gas<f64> {
        Gas {
            u_ion: 12.06 * E_CHARGE,
            k_m: 3.9e7,
            d_e_ref: 2.0e-1,
            delta_eff: 0.02,
            mean_energy: 3.0 * E_CHARGE,
            k_att_2body: 1.0e-17,
            k_att_3body: 1.0e-43,
            f_att: 0.21,
        }
    }

    /// A cylindrical focus of radius `r` and length `l`.
    fn cylinder(r: f64, l: f64) -> Focus<f64> {
        let volume = PI * r * r * l;
        let surface = 2.0 * PI * r * r + 2.0 * PI * r * l;
        Focus {
            lambda_diff: 1.0 / ((PI / l).powi(2) + (2.405 / r).powi(2)).sqrt(),
            mean_chord: 4.0 * volume / surface,
            volume,
        }
    }

    /// A spherical focus of radius `r`.
    fn sphere(r: f64) -> Focus<f64> {
        Focus {
            lambda_diff: r / PI,
            mean_chord: 4.0 * r / 3.0,
            volume: 4.0 / 3.0 * PI * r * r * r,
        }
    }

    /// The focus of a lens of 4 cm on a beam of 1 cm and 1 mrad.
    fn lens_focus() -> Focus<f64> {
        let l_axial = 0.414 * (1e-3 / 1e-2) * 0.04_f64.powi(2);
        Self::cylinder(20e-6, l_axial)
    }

    fn barrier(&self, eps_inf: f64, photon: f64, e: f64) -> f64 {
        (e * e - 2.0 * eps_inf * e) / (eps_inf * photon)
    }

    fn field(&self, intensity: f64) -> f64 {
        (2.0 * intensity / (EPS0 * C_LIGHT)).sqrt()
    }
}

impl Kinetics for Air {
    type Real = f64;

    type Series = Lanczos;

    fn series(&self) -> Lanczos {
        Lanczos
    }

    fn zero(&self) -> f64 {
        0.0
    }

    fn one(&self) -> f64 {
        1.0
    }

    fn half(&self) -> f64 {
        0.5
    }

    fn not_a_number(&self) -> f64 {
        f64::NAN
    }

    fn infinity(&self) -> f64 {
        f64::INFINITY
    }

    fn plus(&self, a: f64, b: f64) -> f64 {
        a + b
    }

    fn minus(&self, a: f64, b: f64) -> f64 {
        a - b
    }

    fn times(&self, a: f64, b: f64) -> f64 {
        a * b
    }

    fn ratio(&self, a: f64, b: f64) -> f64 {
        a / b
    }

    fn negate(&self, a: f64) -> f64 {
        -a
    }

    fn magnitude(&self, a: f64) -> f64 {
        a.abs()
    }

    fn larger(&self, a: f64, b: f64) -> f64 {
        a.max(b)
    }

    fn smaller(&self, a: f64, b: f64) -> f64 {
        a.min(b)
    }

    fn exponential(&self, a: f64) -> f64 {
        a.exp()
    }

    fn exponential_gain(&self, a: f64) -> f64 {
        a.exp_m1()
    }

    fn exceeds(&self, a: f64, b: f64) -> bool {
        a > b
    }

    fn reaches(&self, a: f64, b: f64) -> bool {
        a >= b
    }

    fn is_at_most(&self, a: f64, b: f64) -> bool {
        a <= b
    }

    fn is_positive(&self, a: f64) -> bool {
        a > 0.0
    }

    fn is_valid(&self, a: f64) -> bool {
        a > 0.0 && a.is_finite()
    }

    fn is_finite(&self, a: f64) -> bool {
        a.is_finite()
    }

    fn is_zero(&self, a: f64) -> bool {
        a == 0.0
    }

    fn is_nan(&self, a: f64) -> bool {
        a.is_nan()
    }

    fn climbs(&self, nu_relax: f64, eps_inf: f64, u_ion: f64, photon: f64) -> bool {
        nu_relax > 0.0
            && eps_inf > 0.0
            && u_ion > 0.0
            && photon > 0.0
            && nu_relax.is_finite()
            && eps_inf.is_finite()
            && u_ion.is_finite()
    }

    fn is_blocked(&self, eps_inf: f64, u_ion: f64, photon: f64) -> bool {
        self.barrier(eps_inf, photon, u_ion) - self.barrier(eps_inf, photon, eps_inf.min(u_ion))
            > MAX_EXPONENT
    }

    fn passage_step(&self, u_ion: f64, n: usize) -> f64 {
        u_ion / n as f64
    }

    fn passage_potential(&self, eps_inf: f64, photon: f64, h: f64, k: usize) -> f64 {
        self.barrier(eps_inf, photon, k as f64 * h)
    }

    fn passage_growth(&self, now: f64, before: f64) -> f64 {
        (now - before).exp()
    }

    fn passage_inner(&self, r: f64, s: f64, h: f64) -> f64 {
        r * s + 0.5 * h * (r + 1.0)
    }

    fn passage_outer(&self, total: f64, s: f64, w: f64, h: f64) -> f64 {
        total + s * w * h
    }

    fn passage_time(&self, total: f64, nu_relax: f64, eps_inf: f64, photon: f64) -> f64 {
        total / (0.5 * nu_relax * eps_inf * photon)
    }

    fn keldysh_gamma(&self, intensity: f64, omega: f64, u_ion: f64) -> f64 {
        omega * (2.0 * M_E * u_ion).sqrt() / (E_CHARGE * self.field(intensity))
    }

    fn is_small_gamma(&self, gamma: f64) -> bool {
        gamma < 0.1
    }

    fn exponent_series(&self, gamma: f64) -> f64 {
        gamma * (2.0 / 3.0 - gamma * gamma / 15.0)
    }

    fn exponent_closed(&self, gamma: f64) -> f64 {
        let root = (1.0 + gamma * gamma).sqrt();
        (1.0 + 1.0 / (2.0 * gamma * gamma)) * gamma.asinh() - root / (2.0 * gamma)
    }

    fn keldysh_action(&self, u_ion: f64, omega: f64, exponent: f64) -> f64 {
        2.0 * u_ion / (HBAR * omega) * exponent
    }

    fn keldysh_law(&self, prefactor: f64, omega: f64, action: f64) -> f64 {
        prefactor * omega * (-action.min(MAX_EXPONENT)).exp()
    }

    fn is_dawson_near(&self, x: f64) -> bool {
        x <= 4.0
    }

    fn dawson_near(&self, term: f64, x: f64, n: usize) -> f64 {
        term * (-2.0 * x * x / (2 * n + 1) as f64)
    }

    fn is_spent_term(&self, term: f64, sum: f64) -> bool {
        term.abs() < 1e-18 * sum.abs()
    }

    fn dawson_far_first(&self, x: f64) -> f64 {
        0.5 / x
    }

    fn dawson_far(&self, term: f64, x: f64, n: usize) -> f64 {
        term * ((2 * n - 1) as f64 / (2.0 * x * x))
    }

    fn ati_decay(&self, gamma: f64) -> f64 {
        2.0 * (gamma.asinh() - gamma / (1.0 + gamma * gamma).sqrt())
    }

    fn ati_count(&self, decay: f64) -> usize {
        (40.0 / decay).ceil() as usize
    }

    fn ati_excess(&self, threshold: f64, k: usize) -> f64 {
        threshold.ceil() + k as f64 - threshold
    }

    fn ati_exponent(&self, decay: f64, excess: f64) -> f64 {
        -decay * excess
    }

    fn is_underflow(&self, exponent: f64) -> bool {
        exponent < -MAX_EXPONENT
    }

    fn ati_argument(&self, gamma: f64, excess: f64) -> f64 {
        let root = (1.0 + gamma * gamma).sqrt();
        (2.0 * gamma / root * excess).sqrt()
    }

    fn ati_scale(&self, gamma: f64, sum: f64) -> f64 {
        4.0 / (3.0 * PI).sqrt() * (gamma * gamma / (1.0 + gamma * gamma)) * sum
    }

    fn ppt_gamma(&self, intensity: f64, omega: f64, u_ion: f64) -> f64 {
        let kappa = (2.0 * (u_ion / HARTREE)).sqrt();
        let omega_au = omega * HBAR / HARTREE;
        omega_au * kappa / (self.field(intensity) / F_ATOMIC)
    }

    fn is_tunnelling(&self, gamma: f64) -> bool {
        gamma < 0.1
    }

    fn ppt_threshold(&self, u_ion: f64, omega: f64, gamma: f64) -> f64 {
        let omega_au = omega * HBAR / HARTREE;
        (u_ion / HARTREE) / omega_au * (1.0 + 1.0 / (2.0 * gamma * gamma))
    }

    fn effective_number(&self, u_ion: f64, z_eff: f64) -> f64 {
        z_eff / (2.0 * (u_ion / HARTREE)).sqrt()
    }

    fn ppt_logarithm(
        &self,
        intensity: f64,
        omega: f64,
        u_ion: f64,
        z_eff: f64,
        a0: f64,
        exponent: f64,
        ln_gammas: (f64, f64),
    ) -> f64 {
        let ip = u_ion / HARTREE;
        let kappa = (2.0 * ip).sqrt();
        let f0 = kappa * kappa * kappa;
        let n_star = z_eff / kappa;
        let omega_au = omega * HBAR / HARTREE;
        let field = self.field(intensity) / F_ATOMIC;
        let gamma = omega_au * kappa / field;
        let root = (1.0 + gamma * gamma).sqrt();
        let ln_c2 = 2.0 * n_star * 2.0f64.ln()
            - n_star.ln()
            - ln_gammas.1
            - ln_gammas.0;
        let coulomb = (2.0 * n_star - 1.5) * (2.0 * f0 / (field * root)).ln();
        let action = 2.0 * ip / omega_au * exponent;
        ln_c2 + 0.5 * (6.0 / PI).ln() + ip.ln() + coulomb + a0.ln() - action
    }

    fn ppt_law(&self, logarithm: f64) -> f64 {
        logarithm.min(MAX_EXPONENT).exp() * HARTREE / HBAR
    }

    fn reference_law(&self, rate: f64, intensity: f64, reference: f64, photons: i32) -> f64 {
        rate * (intensity / reference).powi(photons)
    }

    fn attachment(&self, gas: Gas<f64>, n_neutral: f64) -> f64 {
        let n_att = gas.f_att * n_neutral;
        gas.k_att_2body * n_att + gas.k_att_3body * n_att * n_neutral
    }

    fn mean_speed(&self, gas: Gas<f64>) -> f64 {
        (3.0 * gas.d_e_ref * P_REF * gas.k_m).sqrt()
    }

    fn kinetic_diffusion(&self, gas: Gas<f64>, pressure: f64, energy: f64) -> f64 {
        2.0 * energy / (3.0 * M_E * gas.k_m * pressure)
    }

    fn implied_energy(&self, gas: Gas<f64>, pressure: f64, d_e: f64) -> f64 {
        1.5 * M_E * gas.k_m * pressure * d_e
    }

    fn inelastic_fraction(&self, gas: MonatomicGas<f64>) -> f64 {
        (gas.u_ion - gas.u_excite) / gas.u_ion
    }

    fn ambient_density(&self, pressure: f64, nu_att: f64) -> f64 {
        ION_PAIR_PRODUCTION * (pressure / P_REF) / nu_att
    }

    fn heating(&self, omega: f64, gas: Gas<f64>, intensity: f64, pressure: f64) -> f64 {
        let nu_m = gas.k_m * pressure;
        let p_abs = E_CHARGE * E_CHARGE * intensity / (M_E * C_LIGHT * EPS0);
        p_abs * nu_m / (nu_m * nu_m + omega * omega)
    }

    fn inelastic_loss(&self, gas: Gas<f64>, pressure: f64) -> f64 {
        gas.delta_eff * gas.k_m * pressure * gas.mean_energy
    }

    fn relaxation(&self, gas: Gas<f64>, pressure: f64) -> f64 {
        gas.delta_eff * gas.k_m * pressure
    }

    fn climb_rate(&self, nu_relax: f64, eps_inf: f64, u_ion: f64) -> f64 {
        nu_relax / (eps_inf / (eps_inf - u_ion)).ln()
    }

    fn photon_energy(&self, omega: f64) -> f64 {
        HBAR * omega
    }

    fn diffusion(&self, gas: Gas<f64>, pressure: f64) -> f64 {
        gas.d_e_ref * (P_REF / pressure)
    }

    fn escape(&self, _gas: Gas<f64>, focus: Focus<f64>, d_e: f64, speed: f64) -> f64 {
        let tau_diff = focus.lambda_diff * focus.lambda_diff / d_e;
        let tau_ballistic = focus.mean_chord / speed;
        1.0 / (tau_diff + tau_ballistic)
    }

    fn knudsen(&self, gas: Gas<f64>, focus: Focus<f64>, speed: f64, pressure: f64) -> f64 {
        speed / (gas.k_m * pressure * focus.mean_chord)
    }

    fn plateau(&self, omega: f64, u_ion: f64, delta_eff: f64) -> f64 {
        delta_eff * u_ion * M_E * C_LIGHT * EPS0 * omega * omega / (E_CHARGE * E_CHARGE)
    }

    fn capped(&self, exponent: f64) -> f64 {
        exponent.min(MAX_EXPONENT)
    }

    fn clamped(&self, exponent: f64) -> f64 {
        exponent.clamp(-MAX_EXPONENT, MAX_EXPONENT)
    }

    fn is_negligible(&self, exponent: f64) -> bool {
        exponent.abs() < 1e-12
    }

    fn half_window(&self, half_widths: f64, fwhm: f64) -> f64 {
        half_widths * fwhm
    }

    fn pulse_step(&self, half: f64, n_steps: usize) -> f64 {
        2.0 * half / n_steps as f64
    }

    fn pulse_intensity(&self, i_peak: f64, fwhm: f64, half: f64, dt: f64, step: usize) -> f64 {
        let c = 4.0 * std::f64::consts::LN_2 / (fwhm * fwhm);
        let t = -half + (step as f64 + 0.5) * dt;
        i_peak * (-c * t * t).exp()
    }

    fn bracket_floor(&self) -> f64 {
        1e12
    }

    fn bracket_ceiling(&self) -> f64 {
        1e22
    }

    fn geometric_mean(&self, lo: f64, hi: f64) -> f64 {
        (lo * hi).sqrt()
    }

    fn is_narrow(&self, lo: f64, hi: f64) -> bool {
        hi / lo < 1.0 + 1e-6
    }

    fn log_spaced(&self, lo: f64, hi: f64, i: usize, parts: usize) -> f64 {
        lo * (hi / lo).powf(i as f64 / parts as f64)
    }

    fn angular_frequency(&self, wavelength: f64) -> f64 {
        2.0 * PI * C_LIGHT / wavelength
    }

    fn photon_count(&self, u_ion: f64, omega: f64) -> i32 {
        (u_ion / (HBAR * omega)).ceil() as i32
    }

    fn density_per_pressure(&self, temperature: f64) -> f64 {
        1.0 / (1.380_649e-23 * temperature)
    }

    fn default_criterion(&self) -> f64 {
        1.0e23
    }

    fn default_charge(&self) -> f64 {
        Z_EFF_O2
    }

    fn default_window(&self) -> f64 {
        2.0
    }

    fn electron_volts(&self, ev: f64) -> f64 {
        ev * E_CHARGE
    }

    fn measured_rate(&self, criterion: f64, n_over_p: f64, pressure: f64, fwhm: f64) -> f64 {
        match self.mpi_rate {
            Some(rate) => rate,
            None => criterion / (n_over_p * pressure * fwhm),
        }
    }

    fn measured_intensity(&self) -> f64 {
        self.mpi_intensity
    }

    fn measured_photons(&self) -> i32 {
        14
    }
}

/// Specific gas constant of air.
const R_AIR: f64 = 287.052_874;

/// Closed-form speed of a strong detonation that an intensity sustains.
fn raizer_lsd_velocity(gas: &IdealGas, s: f64, rho_0: f64) -> f64 {
    (2.0 * (gas.gamma * gas.gamma - 1.0) * s / rho_0).cbrt()
}

/// The formulas of a spark and its wave, in SI units.
#[derive(Debug, Clone, Copy, PartialEq)]
struct Detonation {
    gas: IdealGas,
}

impl LsdCase for Detonation {
    type Real = f64;
    type Optics = Light;
    type Kinetics = Air;
    type Hydro = Line;

    fn is_positive(&self, x: f64) -> bool {
        x > 0.0
    }

    fn is_valid(&self, x: f64) -> bool {
        x > 0.0 && x.is_finite()
    }

    fn is_finite(&self, x: f64) -> bool {
        x.is_finite()
    }

    fn exceeds(&self, a: f64, b: f64) -> bool {
        a > b
    }

    fn minus(&self, a: f64, b: f64) -> f64 {
        a - b
    }

    fn times(&self, a: f64, b: f64) -> f64 {
        a * b
    }

    fn ratio(&self, a: f64, b: f64) -> f64 {
        a / b
    }

    fn negate(&self, a: f64) -> f64 {
        -a
    }

    fn members(&self, n: usize) -> f64 {
        n as f64
    }

    fn focus_fraction(&self) -> f64 {
        0.75
    }

    fn focal_spacing(&self, w_focus: f64) -> f64 {
        w_focus / 16.0
    }

    fn optics(&self, spacing: f64, wavelength: f64) -> Light {
        Light::new(FOCAL_SAMPLES, spacing, wavelength)
    }

    fn kinetics(&self) -> Air {
        AIR
    }

    fn setup(&self, wavelength: f64) -> Setup<f64> {
        Setup {
            wavelength,
            gas: Air::dry_air(),
            focus: Air::lens_focus(),
            temperature: 288.0,
        }
    }

    fn ambient_density(&self, p0: f64, t0: f64) -> f64 {
        p0 / (R_AIR * t0)
    }

    fn wave_speed(&self, drive: f64, rho_0: f64) -> f64 {
        raizer_lsd_velocity(&self.gas, drive, rho_0)
    }

    fn hydro(&self, length: f64, cells: usize) -> Line {
        Line::new(self.gas, 0.0, length / cells as f64, length)
    }

    fn ambient(&self, rho_0: f64, p0: f64) -> Primitive {
        Primitive {
            rho: rho_0,
            u: 0.0,
            p: p0,
        }
    }

    fn ignition_energy(&self, rho_0: f64, p0: f64) -> f64 {
        5.0 * self.gas.specific_internal_energy(rho_0, p0)
    }

    fn hot_spot(&self, length: f64, rho_0: f64, speed: f64) -> SeededIgnition<f64> {
        SeededIgnition {
            centre: 0.75 * length,
            width: 6e-4,
            pressure: 2.0 * rho_0 * speed * speed / (self.gas.gamma + 1.0),
        }
    }

    fn duration(&self, fraction: f64, length: f64, speed: f64) -> f64 {
        fraction * length / speed
    }

    fn frame_time(&self, frame: usize, t_end: f64, frames: usize) -> f64 {
        frame as f64 * t_end / (frames - 1) as f64
    }

    fn cell_centre(&self, i: usize, length: f64, cells: usize) -> f64 {
        (i as f64 + 0.5) * (length / cells as f64)
    }

    fn log_transmission(&self, depth: f64) -> f64 {
        -depth / std::f64::consts::LN_10
    }

    fn co2_wavelength(&self) -> f64 {
        10.6e-6
    }

    fn gaunt(&self) -> f64 {
        1.0
    }

    fn table(&self) -> Option<PlasmaTable<f64>> {
        Some(flat_table())
    }
}

const CASE: Detonation = Detonation { gas: IdealGas::AIR };

/// A table of uniform, mildly ionized air.
fn flat_table() -> PlasmaTable<f64> {
    let mut data = Vec::with_capacity(4 * N_T * N_P);
    for prop in 0..4 {
        for i in 0..N_T {
            let t = PlasmaAxes::T_MIN + i as f64 * PlasmaAxes::T_STEP;
            for j in 0..N_P {
                let p = 10f64.powf(PlasmaAxes::P_LOG10_MIN + j as f64 / PlasmaAxes::P_PER_DECADE);
                data.push(match prop {
                    0 => (p / (R_AIR * t)).ln(),
                    1 => 717.5 * t,
                    2 => 1.4,
                    _ => 1e24f64.ln(),
                });
            }
        }
    }
    PlasmaTable::load((4, N_T, N_P), data).ok().unwrap()
}

fn demo() -> LsdParams<f64> {
    LsdParams {
        wavelength: 1064e-9,
        fwhm: 6e-9,
        ignite_power: 1.5e7,
        w_focus: 20e-6,
        drive: 1e11,
        p0: 101_325.0,
        t0: 288.0,
        length: 2.5e-2,
        cells: 2500,
        alpha: 2e4,
        cross_fraction: 0.5,
        frames: 24,
        ignition_steps: 400,
    }
}

#[test]
fn lsd_demo_ignites_and_reproduces_the_closed_form() {
    let r = run_lsd(&CASE, &demo()).unwrap();
    assert!(r.spark.ignited, "the pulse must light the gas");
    assert!(
        r.spark.i_peak > r.spark.i_threshold,
        "ignited without clearing the threshold: {:.3e} vs {:.3e}",
        r.spark.i_peak,
        r.spark.i_threshold
    );
    let wave = r.wave.unwrap();
    let d = wave.d_measured.unwrap();
    let err = d / r.d_raizer - 1.0;
    assert!(
        err.abs() < 0.01,
        "D = {d:.1} m/s vs {:.1} ({:+.3} %)",
        r.d_raizer,
        100.0 * err
    );
    assert!(wave.boundaries_undisturbed, "the wave reached a boundary");
    assert!(
        wave.energy_residual < 1e-10,
        "energy budget off by {:.3e}",
        wave.energy_residual
    );
    assert_eq!(wave.frames.len(), 24);
    assert_eq!(wave.x.len(), 2500);
    for f in &wave.frames {
        assert_eq!(f.pressure.len(), 2500);
        assert_eq!(f.density.len(), 2500);
        assert_eq!(f.velocity.len(), 2500);
        assert_eq!(f.absorption.len(), 2500);
        assert_eq!(f.intensity.len(), 2500);
    }
    let track: Vec<f64> = wave.frames.iter().filter_map(|f| f.front_x).collect();
    assert!(track.len() > 20, "the front vanished mid-run");
    for w in track.windows(2) {
        assert!(w[1] < w[0], "the front reversed: {track:?}");
    }
    let last = wave.frames.last().unwrap();
    assert!(
        last.log10_transmission < -100.0,
        "final log10 transmission {:.1}",
        last.log10_transmission
    );
    // The beam enters at full intensity, and each frame is where it should be.
    assert_eq!(last.intensity[0], 1e11);
    let t_end = 0.5 * 2.5e-2 / r.d_raizer;
    assert!((last.time - t_end).abs() < 1e-12 * t_end);
    assert_eq!(wave.frames[0].time, 0.0);
    assert_eq!(wave.x[0], 0.5 * 1e-5);
    // The closure that is reported comes from the table, where there is one.
    let (a, co2) = (wave.ib_alpha.unwrap(), wave.ib_alpha_co2.unwrap());
    assert!(co2 > 50.0 * a, "free-free absorption rises with the wavelength");
    assert_eq!(wave.ib_optical_depth.unwrap(), a * 2.5e-2);
    assert_eq!(wave.ib_optical_depth_co2.unwrap(), co2 * 2.5e-2);
}

#[test]
fn the_sustaining_drive_is_far_below_the_breakdown_threshold() {
    let spark = light_spark(&CASE, &demo()).unwrap();
    let ratio = demo().drive / spark.i_threshold;
    assert!(ratio < 1e-4, "the drive is {ratio:.2e} of the threshold");
    let s = CASE.setup(1064e-9);
    let igniter = AirBreakdown::new(AIR, s.wavelength, s.gas, s.focus, s.temperature)
        .ok()
        .unwrap();
    assert_eq!(
        spark.i_threshold,
        igniter.threshold_intensity(6e-9, 101_325.0, 400).unwrap()
    );
    // Under the climb of an average electron it is an intensity floor: a longer
    // pulse hardly lowers it.
    let igniter = igniter.with_cascade_model(CascadeModel::SelfConsistentClimb);
    let short = igniter.threshold_intensity(6e-9, 101_325.0, 400).unwrap();
    let long = igniter.threshold_intensity(1e-3, 101_325.0, 400).unwrap();
    assert!(
        long > 0.9 * short,
        "the threshold fell from {short:.3e} to {long:.3e} over 6 ns to 1 ms"
    );
}

#[test]
fn a_beam_that_cannot_ignite_reports_cleanly() {
    let r = run_lsd(&CASE, &LsdParams { ignite_power: 1.0, ..demo() }).unwrap();
    assert!(!r.spark.ignited);
    assert!(r.spark.i_peak < r.spark.i_threshold);
    assert!(r.wave.is_none());
    assert_eq!(r.drive, 1e11);
    assert_eq!(r.rho_0, 101_325.0 / (R_AIR * 288.0));
}

#[test]
fn degenerate_lsd_parameters_are_refused() {
    let refused = |p: LsdParams<f64>| run_lsd(&CASE, &p).err();
    assert_eq!(refused(LsdParams { cells: 4, ..demo() }), Some(LsdCaseError::BadColumn));
    assert_eq!(refused(LsdParams { frames: 1, ..demo() }), Some(LsdCaseError::TooFewFrames));
    assert_eq!(refused(LsdParams { length: -1.0, ..demo() }), Some(LsdCaseError::BadColumn));
    assert_eq!(refused(LsdParams { drive: 0.0, ..demo() }), Some(LsdCaseError::BadDrive));
    assert_eq!(refused(LsdParams { t0: 0.0, ..demo() }), Some(LsdCaseError::BadAmbient));
    assert_eq!(
        refused(LsdParams { cross_fraction: 0.9, ..demo() }),
        Some(LsdCaseError::BadCross)
    );
    assert_eq!(refused(LsdParams { p0: -1.0, ..demo() }), Some(LsdCaseError::BadAmbient));
    for focus in [0.0, -1.0, f64::NAN, f64::INFINITY] {
        assert_eq!(refused(LsdParams { w_focus: focus, ..demo() }), Some(LsdCaseError::BadFocus));
    }
    assert_eq!(refused(LsdParams { wavelength: 0.0, ..demo() }), Some(LsdCaseError::BadFocus));
    assert_eq!(
        refused(LsdParams { ignite_power: -1.0, ..demo() }),
        Some(LsdCaseError::Scale(ScaleError::BadBeamPower))
    );
}

#[test]
fn a_wave_outside_its_regime_is_refused() {
    // The absorption length spans less than a cell.
    let coarse = LsdParams { cells: 100, ..demo() };
    assert!(matches!(
        run_lsd(&CASE, &coarse).err(),
        Some(LsdCaseError::Regime(LsdError::Unresolved { .. }))
    ));
}

#[test]
fn raizer_velocity_matches_the_worked_example() {
    let d = CASE.wave_speed(1e11, 1.225);
    assert!((d - 5390.0).abs() < 10.0, "D = {d} m/s");
}

#[test]
fn raizer_velocity_has_the_one_third_exponents() {
    let d = CASE.wave_speed(1e11, 1.225);
    let d_10s = CASE.wave_speed(1e12, 1.225);
    let d_10rho = CASE.wave_speed(1e11, 12.25);
    assert!((d_10s / d - 10f64.cbrt()).abs() < 1e-12);
    assert!((d_10rho / d - 0.1f64.cbrt()).abs() < 1e-12);
}

#[test]
fn a_front_speed_is_the_slope_of_its_track() {
    let hydro = CASE.hydro(1.0, 8);
    assert_eq!(front_speed(&CASE, &hydro, &[]), None);
    assert_eq!(front_speed(&CASE, &hydro, &[(0.0, 1.0)]), None);
    // Towards the laser is forward.
    let d = front_speed(&CASE, &hydro, &[(0.0, 1.0), (1.0, 0.5), (2.0, 0.0)]).unwrap();
    assert!((d - 0.5).abs() < 1e-15);
}

#[test]
fn the_peak_state_is_the_one_of_the_highest_pressure() {
    let hydro = CASE.hydro(1.0, 8);
    let at = |p: f64, rho: f64| Primitive { rho, u: 0.0, p };
    let states = [at(2.0, 1.0), at(5.0, 2.0), at(5.0, 3.0), at(4.0, 4.0)];
    assert_eq!(peak_state(&hydro, at(1.0, 9.0), &states), at(5.0, 2.0));
    assert_eq!(peak_state(&hydro, at(7.0, 9.0), &states), at(7.0, 9.0));
}

#[test]
fn the_pulse_only_lights_the_gas() {
    let small = LsdParams { cells: 600, length: 6e-3, frames: 6, ..demo() };
    let brighter = LsdParams { ignite_power: 2.0 * small.ignite_power, ..small };
    let tighter = LsdParams { w_focus: 0.9 * small.w_focus, ..small };
    let a = run_lsd(&CASE, &small).unwrap();
    let x = a.wave.unwrap();
    assert!(x.frames.windows(2).all(|w| w[0].time < w[1].time), "frames go back in time");
    for p in [brighter, tighter] {
        let b = run_lsd(&CASE, &p).unwrap();
        assert!(a.spark.ignited && b.spark.ignited);
        assert!(b.spark.i_peak > a.spark.i_peak);
        assert_eq!(a.spark.i_threshold, b.spark.i_threshold);
        assert_eq!((a.drive, a.rho_0, a.d_raizer), (b.drive, b.rho_0, b.d_raizer));
        let y = b.wave.unwrap();
        assert_eq!(x.d_measured, y.d_measured);
        assert_eq!(x.deposited_energy, y.deposited_energy);
        assert_eq!(x.energy_residual, y.energy_residual);
        assert_eq!((x.ib_alpha, x.ib_alpha_co2), (y.ib_alpha, y.ib_alpha_co2));
        for (f, g) in x.frames.iter().zip(&y.frames) {
            assert_eq!((f.time, f.front_x, f.optical_depth), (g.time, g.front_x, g.optical_depth));
            assert_eq!((&f.pressure, &f.density), (&g.pressure, &g.density));
            assert_eq!((&f.velocity, &f.absorption), (&g.velocity, &g.absorption));
            assert_eq!(f.intensity, g.intensity);
        }
    }
}

use beamprop::euler1d::{Boundary, Conserved, Euler1d, Scheme1d, N_GHOST};
use beamprop::euler2d::{
    dir_flux, dir_hllc, find_bad, ghost_face_radius, mirror, pack, pad_line, unpack_flux,
    sweep_line, Boundary2d, Conserved2d, Dir, Euler2d, Euler2dError, Geometry, Metric, Scheme2d,
    Stage2d, Transverse,
};
use beamprop::lsd::{
    Absorption, Beam1d, IonizationCeiling, LsdColumn, LsdError, SeededIgnition,
};
use beamprop::lsd2d::{Beam2d, BeamProfile, Lsd2dColumn, Lsd2dError, SeededIgnition2d};
use beamprop::plasmaprops::{PlasmaScale, PlasmaTable, N_P, N_T};
use beamprop::reconstruct::{pressure, weighted_faces, weighted_update};
use beamprop::riemann::Acoustics;
use beamprop::table::Tabulation;

/// Density, velocity and pressure.
type Primitive = beamprop::euler1d::Primitive<f64>;

/// A calorically perfect gas.
#[derive(Debug, Clone, Copy, PartialEq)]
struct IdealGas {
    gamma: f64,
}

impl IdealGas {
    const AIR: Self = Self { gamma: 1.4 };

    fn speed_of_sound(&self, rho: f64, p: f64) -> f64 {
        (self.gamma * p / rho).sqrt()
    }

    fn specific_internal_energy(&self, rho: f64, p: f64) -> f64 {
        p / ((self.gamma - 1.0) * rho)
    }

    fn to_conserved(&self, w: Primitive) -> Conserved<f64> {
        Conserved {
            rho: w.rho,
            mom: w.rho * w.u,
            energy: w.p / (self.gamma - 1.0) + 0.5 * w.rho * w.u * w.u,
        }
    }

    fn to_primitive(&self, u: Conserved<f64>) -> Primitive {
        let v = u.mom / u.rho;
        Primitive {
            rho: u.rho,
            u: v,
            p: (self.gamma - 1.0) * (u.energy - 0.5 * u.mom * v),
        }
    }
}

/// A positive, finite number; not a number is neither.
fn positive(x: f64) -> bool {
    x > 0.0 && x.is_finite()
}

impl Acoustics for IdealGas {
    type Real = f64;

    fn zero(&self) -> f64 {
        0.0
    }

    fn plus(&self, a: f64, b: f64) -> f64 {
        a + b
    }

    fn minus(&self, a: f64, b: f64) -> f64 {
        a - b
    }

    fn times(&self, a: f64, b: f64) -> f64 {
        a * b
    }

    fn half(&self, x: f64) -> f64 {
        0.5 * x
    }

    fn smaller(&self, a: f64, b: f64) -> f64 {
        a.min(b)
    }

    fn larger(&self, a: f64, b: f64) -> f64 {
        a.max(b)
    }

    fn root(&self, x: f64) -> f64 {
        x.sqrt()
    }

    fn opposes(&self, a: f64, b: f64) -> bool {
        a * b <= 0.0
    }

    fn is_flatter(&self, a: f64, b: f64) -> bool {
        a.abs() < b.abs()
    }

    fn exceeds_zero(&self, x: f64) -> bool {
        x > 0.0
    }

    fn is_forward(&self, x: f64) -> bool {
        x >= 0.0
    }

    fn is_backward(&self, x: f64) -> bool {
        x <= 0.0
    }

    fn flux(&self, u: Conserved<f64>) -> Conserved<f64> {
        let w = self.to_primitive(u);
        Conserved {
            rho: u.mom,
            mom: u.mom * w.u + w.p,
            energy: (u.energy + w.p) * w.u,
        }
    }

    fn velocity(&self, u: Conserved<f64>) -> f64 {
        self.to_primitive(u).u
    }

    fn sound_speed(&self, u: Conserved<f64>) -> f64 {
        let w = self.to_primitive(u);
        self.speed_of_sound(w.rho, w.p)
    }

    fn pressure(&self, u: Conserved<f64>) -> f64 {
        self.to_primitive(u).p
    }

    fn roe(&self, left: Conserved<f64>, right: Conserved<f64>) -> (f64, f64) {
        let (wl, wr) = (self.to_primitive(left), self.to_primitive(right));
        let (sl, sr) = (wl.rho.sqrt(), wr.rho.sqrt());
        let u = (sl * wl.u + sr * wr.u) / (sl + sr);
        let hl = (left.energy + wl.p) / wl.rho;
        let hr = (right.energy + wr.p) / wr.rho;
        let h = (sl * hl + sr * hr) / (sl + sr);
        (u, (self.gamma - 1.0) * (h - 0.5 * u * u))
    }

    fn contact(&self, left: Conserved<f64>, right: Conserved<f64>, s_left: f64, s_right: f64) -> f64 {
        let (wl, wr) = (self.to_primitive(left), self.to_primitive(right));
        let ml = wl.rho * (s_left - wl.u);
        let mr = wr.rho * (s_right - wr.u);
        (wr.p - wl.p + ml * wl.u - mr * wr.u) / (ml - mr)
    }

    fn star(&self, u: Conserved<f64>, s: f64, s_star: f64) -> Conserved<f64> {
        let w = self.to_primitive(u);
        let coef = w.rho * (s - w.u) / (s - s_star);
        Conserved {
            rho: coef,
            mom: coef * s_star,
            energy: coef
                * (u.energy / w.rho + (s_star - w.u) * (s_star + w.p / (w.rho * (s - w.u)))),
        }
    }
}

/// A gas on a uniform line.
#[derive(Debug, Clone, Copy, PartialEq)]
struct Line {
    gas: IdealGas,
    x_min: f64,
    dx: f64,
    length: f64,
    /// Fewest cells that an absorption length may span.
    min_cells: f64,
    /// Largest share of the line that an absorption length may span.
    max_share: f64,
}

impl Line {
    /// A line on its own.
    fn new(gas: IdealGas, x_min: f64, dx: f64, length: f64) -> Self {
        Self {
            gas,
            x_min,
            dx,
            length,
            min_cells: 4.0,
            max_share: 0.25,
        }
    }

    /// A pencil of a wider beam.
    fn pencil(gas: IdealGas, dx: f64, length: f64) -> Self {
        Self {
            min_cells: 5.0,
            max_share: 0.1,
            ..Self::new(gas, 0.0, dx, length)
        }
    }
}

impl Acoustics for Line {
    type Real = f64;

    fn zero(&self) -> f64 {
        Acoustics::zero(&self.gas)
    }

    fn plus(&self, a: f64, b: f64) -> f64 {
        Acoustics::plus(&self.gas, a, b)
    }

    fn minus(&self, a: f64, b: f64) -> f64 {
        Acoustics::minus(&self.gas, a, b)
    }

    fn times(&self, a: f64, b: f64) -> f64 {
        Acoustics::times(&self.gas, a, b)
    }

    fn half(&self, x: f64) -> f64 {
        Acoustics::half(&self.gas, x)
    }

    fn smaller(&self, a: f64, b: f64) -> f64 {
        Acoustics::smaller(&self.gas, a, b)
    }

    fn larger(&self, a: f64, b: f64) -> f64 {
        Acoustics::larger(&self.gas, a, b)
    }

    fn root(&self, x: f64) -> f64 {
        Acoustics::root(&self.gas, x)
    }

    fn opposes(&self, a: f64, b: f64) -> bool {
        Acoustics::opposes(&self.gas, a, b)
    }

    fn is_flatter(&self, a: f64, b: f64) -> bool {
        Acoustics::is_flatter(&self.gas, a, b)
    }

    fn exceeds_zero(&self, x: f64) -> bool {
        Acoustics::exceeds_zero(&self.gas, x)
    }

    fn is_forward(&self, x: f64) -> bool {
        Acoustics::is_forward(&self.gas, x)
    }

    fn is_backward(&self, x: f64) -> bool {
        Acoustics::is_backward(&self.gas, x)
    }

    fn flux(&self, u: Conserved<f64>) -> Conserved<f64> {
        Acoustics::flux(&self.gas, u)
    }

    fn velocity(&self, u: Conserved<f64>) -> f64 {
        Acoustics::velocity(&self.gas, u)
    }

    fn sound_speed(&self, u: Conserved<f64>) -> f64 {
        Acoustics::sound_speed(&self.gas, u)
    }

    fn pressure(&self, u: Conserved<f64>) -> f64 {
        Acoustics::pressure(&self.gas, u)
    }

    fn roe(&self, left: Conserved<f64>, right: Conserved<f64>) -> (f64, f64) {
        Acoustics::roe(&self.gas, left, right)
    }

    fn contact(&self, left: Conserved<f64>, right: Conserved<f64>, s_left: f64, s_right: f64) -> f64 {
        Acoustics::contact(&self.gas, left, right, s_left, s_right)
    }

    fn star(&self, u: Conserved<f64>, s: f64, s_star: f64) -> Conserved<f64> {
        Acoustics::star(&self.gas, u, s, s_star)
    }
}

impl Scheme1d for Line {
    fn spacing_is_valid(&self) -> bool {
        positive(self.dx)
    }

    fn admits(&self, w: Primitive) -> bool {
        positive(w.rho) && positive(w.p)
    }

    fn to_conserved(&self, w: Primitive) -> Conserved<f64> {
        self.gas.to_conserved(w)
    }

    fn to_primitive(&self, u: Conserved<f64>) -> Primitive {
        self.gas.to_primitive(u)
    }

    fn is_physical(&self, u: Conserved<f64>) -> bool {
        let w = self.gas.to_primitive(u);
        positive(w.rho) && positive(w.p) && w.u.is_finite()
    }

    fn is_positive(&self, x: f64) -> bool {
        positive(x)
    }

    fn is_source_interval(&self, dt: f64) -> bool {
        dt.is_finite() && !(dt < 0.0)
    }

    fn default_cfl(&self) -> f64 {
        0.8
    }

    fn cfl_is_valid(&self, cfl: f64) -> bool {
        positive(cfl) && !(cfl > 0.8)
    }

    fn wave_speed(&self, u: Conserved<f64>) -> f64 {
        let w = self.gas.to_primitive(u);
        w.u.abs() + self.gas.speed_of_sound(w.rho, w.p)
    }

    fn courant_step(&self, cfl: f64, speed: f64) -> f64 {
        cfl * self.dx / speed
    }

    fn violates(&self, dt: f64, limit: f64) -> bool {
        dt > limit * (1.0 + 1e-12)
    }

    fn is_before(&self, t: f64, t_end: f64) -> bool {
        t < t_end
    }

    fn clip(&self, dt: f64, t: f64, t_end: f64) -> f64 {
        dt.min(t_end - t)
    }

    fn x_centre(&self, i: usize) -> f64 {
        self.x_min + (i as f64 + 0.5) * self.dx
    }

    fn half_weight(&self, dt: f64) -> f64 {
        0.5 * dt / self.dx
    }

    fn weight(&self, dt: f64) -> f64 {
        dt / self.dx
    }

    fn heat(&self, dt: f64, energy: f64, rate: f64) -> f64 {
        energy + dt * rate
    }

    fn integral(&self, sum: f64) -> f64 {
        sum * self.dx
    }
}

const SECOND_IONIZATION_K: f64 = 20_000.0;

/// The axes of the plasma table.
#[derive(Debug, Clone, Copy, PartialEq)]
struct PlasmaAxes;

impl PlasmaAxes {
    const T_MIN: f64 = 200.0;
    const T_STEP: f64 = 50.0;
    const P_LOG10_MIN: f64 = 4.0;
    const P_PER_DECADE: f64 = 8.0;
}

impl Tabulation for PlasmaAxes {
    type Real = f64;

    fn t_position(&self, t: f64) -> f64 {
        (t - Self::T_MIN) / Self::T_STEP
    }

    fn p_position(&self, p: f64) -> f64 {
        (p.log10() - Self::P_LOG10_MIN) * Self::P_PER_DECADE
    }

    fn is_on_axis(&self, x: f64, last: usize) -> bool {
        (0.0..=last as f64).contains(&x)
    }

    fn node(&self, x: f64) -> usize {
        x.floor() as usize
    }

    fn past(&self, x: f64, node: usize) -> f64 {
        x - node as f64
    }

    fn blend(&self, c: (f64, f64, f64, f64), ft: f64, fp: f64) -> f64 {
        c.0 * (1.0 - ft) * (1.0 - fp) + c.1 * ft * (1.0 - fp) + c.2 * (1.0 - ft) * fp + c.3 * ft * fp
    }
}

impl PlasmaScale for PlasmaAxes {
    fn second_ionization(&self) -> f64 {
        SECOND_IONIZATION_K
    }

    fn is_finite(&self, x: f64) -> bool {
        x.is_finite()
    }

    fn is_positive(&self, x: f64) -> bool {
        !(x <= 0.0)
    }

    fn exponential(&self, x: f64) -> f64 {
        x.exp()
    }

    fn ratio(&self, a: f64, b: f64) -> f64 {
        a / b
    }

    fn charge(&self) -> f64 {
        1.0
    }

    fn coldest(&self) -> f64 {
        Self::T_MIN
    }

    fn hottest(&self) -> f64 {
        Self::T_MIN + (beamprop::plasmaprops::N_T - 1) as f64 * Self::T_STEP
    }

    fn is_between(&self, x: f64, lo: f64, hi: f64) -> bool {
        (lo..=hi).contains(&x)
    }

    fn exceeds(&self, a: f64, b: f64) -> bool {
        a > b
    }

    fn midpoint(&self, lo: f64, hi: f64) -> f64 {
        0.5 * (lo + hi)
    }
}

impl Beam1d for Line {
    type Axes = PlasmaAxes;

    fn axes(&self) -> PlasmaAxes {
        PlasmaAxes
    }

    fn internal_energy(&self, w: Primitive) -> f64 {
        self.gas.specific_internal_energy(w.rho, w.p)
    }

    fn exceeds(&self, a: f64, b: f64) -> bool {
        a > b
    }

    fn reaches(&self, a: f64, b: f64) -> bool {
        a >= b
    }

    fn one(&self) -> f64 {
        1.0
    }

    fn lowest(&self) -> f64 {
        f64::NEG_INFINITY
    }

    fn ratio(&self, a: f64, b: f64) -> f64 {
        a / b
    }

    fn free_free(&self, wavelength: f64, gaunt: f64, z: f64, n_e: f64, n_i: f64, t: f64) -> f64 {
        let nu = 299_792_458.0 / wavelength;
        let x = 6.626_070_15e-34 * nu / (1.380_649e-23 * t);
        3.7e-2 * gaunt * z * z * n_e * n_i / (t.sqrt() * nu * nu * nu) * (-(-x).exp_m1())
    }

    fn attenuate(&self, intensity: f64, alpha: f64) -> f64 {
        intensity * (-alpha * self.dx).exp()
    }

    fn absorbed(&self, entering: f64, leaving: f64) -> f64 {
        (entering - leaving) / self.dx
    }

    fn bank(&self, total: f64, dt: f64, sum: f64) -> f64 {
        total + dt * self.dx * sum
    }

    fn budget_gap(&self, energy: f64, initial: f64, deposited: f64) -> f64 {
        ((energy - initial) - deposited).abs() / deposited.abs().max(f64::MIN_POSITIVE)
    }

    fn predicted_speed(&self, w: Primitive, q: f64, dt: f64) -> f64 {
        let p = w.p + (self.gas.gamma - 1.0) * q * 0.5 * dt;
        w.u.abs() + self.gas.speed_of_sound(w.rho, p.max(w.p))
    }

    fn is_settled(&self, next: f64, dt: f64) -> bool {
        (next - dt).abs() <= 1e-10 * dt
    }

    fn shave(&self, dt: f64) -> f64 {
        dt * (1.0 - 1e-9)
    }

    fn is_front(&self, p_max: f64, ambient: Primitive) -> bool {
        !(p_max < 2.0 * ambient.p)
    }

    fn half_rise(&self, p_max: f64, ambient: Primitive) -> f64 {
        ambient.p + 0.5 * (p_max - ambient.p)
    }

    fn crossing(&self, level: f64, before: Primitive, at: Primitive, i: usize) -> f64 {
        let f = (level - before.p) / (at.p - before.p);
        self.x_centre(i - 1) + f * self.dx
    }

    fn mean_speed(&self, x0: f64, x1: f64, t0: f64, t1: f64) -> f64 {
        (x0 - x1) / (t1 - t0)
    }

    fn transmission(&self, depth: f64) -> f64 {
        (-depth).exp()
    }

    fn is_quiet(&self, w: Primitive, ambient: Primitive) -> bool {
        (w.p - ambient.p).abs() <= 1e-9 * ambient.p
            && (w.rho - ambient.rho).abs() <= 1e-9 * ambient.rho
            && w.u == 0.0
    }

    fn length_is_valid(&self) -> bool {
        positive(self.length)
    }

    fn is_hot_spot(&self, seed: SeededIgnition<f64>, ambient: Primitive) -> bool {
        positive(seed.width) && !(seed.pressure <= ambient.p)
    }

    fn is_in_seed(&self, seed: SeededIgnition<f64>, x: f64) -> bool {
        (x - seed.centre).abs() <= 0.5 * seed.width
    }

    fn absorbs(&self, alpha: f64) -> bool {
        !(alpha <= 0.0)
    }

    fn cells_spanned(&self, alpha: f64) -> f64 {
        1.0 / alpha / self.dx
    }

    fn finest_spacing(&self, alpha: f64) -> f64 {
        1.0 / alpha / self.min_cells
    }

    fn share_spanned(&self, alpha: f64, n: usize) -> f64 {
        1.0 / alpha / (self.dx * n as f64)
    }

    fn is_resolved(&self, alpha: f64) -> bool {
        !((1.0 / alpha) / self.dx < self.min_cells)
    }

    fn is_thin(&self, alpha: f64, n: usize) -> bool {
        !(1.0 / alpha > self.max_share * (self.dx * n as f64))
    }

    fn is_strong_absorber(&self, alpha: f64, largest: f64) -> bool {
        alpha >= 0.5 * largest
    }

    fn is_enough(&self, fraction: f64) -> bool {
        !(fraction < 0.9)
    }

    fn is_strong(&self, p_max: f64, ambient: Primitive) -> bool {
        !(p_max / ambient.p < 10.0)
    }

    fn mean(&self, sum: f64, per: usize) -> f64 {
        sum / per as f64
    }

    fn thickness(&self, per: usize) -> f64 {
        per as f64 * self.dx
    }

    fn is_extinction(&self, alpha: f64) -> bool {
        alpha.is_finite() && alpha >= 0.0
    }
}

/// Density, radial and axial velocity, pressure.
type Primitive2d = beamprop::euler2d::Primitive2d<f64>;

/// A gas on uniform rings.
#[derive(Debug, Clone, Copy, PartialEq)]
struct Rings {
    gas: IdealGas,
    r_min: f64,
    x_min: f64,
    dr: f64,
    dx: f64,
    radius: f64,
    length: f64,
}

impl Rings {
    fn outer_edge(&self, n: usize) -> f64 {
        self.r_min + n as f64 * self.dr
    }

    fn primitive(&self, u: Conserved2d<f64>) -> Primitive2d {
        let u_r = u.mom_r / u.rho;
        let u_x = u.mom_x / u.rho;
        Primitive2d {
            rho: u.rho,
            u_r,
            u_x,
            p: (self.gas.gamma - 1.0) * (u.energy - 0.5 * (u.mom_r * u_r + u.mom_x * u_x)),
        }
    }

    fn conserved(&self, w: Primitive2d) -> Conserved2d<f64> {
        Conserved2d {
            rho: w.rho,
            mom_r: w.rho * w.u_r,
            mom_x: w.rho * w.u_x,
            energy: w.p / (self.gas.gamma - 1.0)
                + 0.5 * w.rho * (w.u_r * w.u_r + w.u_x * w.u_x),
        }
    }
}

impl Acoustics for Rings {
    type Real = f64;

    fn zero(&self) -> f64 {
        Acoustics::zero(&self.gas)
    }

    fn plus(&self, a: f64, b: f64) -> f64 {
        Acoustics::plus(&self.gas, a, b)
    }

    fn minus(&self, a: f64, b: f64) -> f64 {
        Acoustics::minus(&self.gas, a, b)
    }

    fn times(&self, a: f64, b: f64) -> f64 {
        Acoustics::times(&self.gas, a, b)
    }

    fn half(&self, x: f64) -> f64 {
        Acoustics::half(&self.gas, x)
    }

    fn smaller(&self, a: f64, b: f64) -> f64 {
        Acoustics::smaller(&self.gas, a, b)
    }

    fn larger(&self, a: f64, b: f64) -> f64 {
        Acoustics::larger(&self.gas, a, b)
    }

    fn root(&self, x: f64) -> f64 {
        Acoustics::root(&self.gas, x)
    }

    fn opposes(&self, a: f64, b: f64) -> bool {
        Acoustics::opposes(&self.gas, a, b)
    }

    fn is_flatter(&self, a: f64, b: f64) -> bool {
        Acoustics::is_flatter(&self.gas, a, b)
    }

    fn exceeds_zero(&self, x: f64) -> bool {
        Acoustics::exceeds_zero(&self.gas, x)
    }

    fn is_forward(&self, x: f64) -> bool {
        Acoustics::is_forward(&self.gas, x)
    }

    fn is_backward(&self, x: f64) -> bool {
        Acoustics::is_backward(&self.gas, x)
    }

    fn flux(&self, u: Conserved<f64>) -> Conserved<f64> {
        Acoustics::flux(&self.gas, u)
    }

    fn velocity(&self, u: Conserved<f64>) -> f64 {
        Acoustics::velocity(&self.gas, u)
    }

    fn sound_speed(&self, u: Conserved<f64>) -> f64 {
        Acoustics::sound_speed(&self.gas, u)
    }

    fn pressure(&self, u: Conserved<f64>) -> f64 {
        Acoustics::pressure(&self.gas, u)
    }

    fn roe(&self, left: Conserved<f64>, right: Conserved<f64>) -> (f64, f64) {
        Acoustics::roe(&self.gas, left, right)
    }

    fn contact(&self, left: Conserved<f64>, right: Conserved<f64>, s_left: f64, s_right: f64) -> f64 {
        Acoustics::contact(&self.gas, left, right, s_left, s_right)
    }

    fn star(&self, u: Conserved<f64>, s: f64, s_star: f64) -> Conserved<f64> {
        Acoustics::star(&self.gas, u, s, s_star)
    }
}

impl Transverse for Rings {
    fn transverse_velocity(&self, mom: f64, rho: f64) -> f64 {
        mom / rho
    }

    fn parallel_energy(&self, energy: f64, mom: f64, v: f64) -> f64 {
        energy - 0.5 * mom * v
    }

    fn carried_momentum(&self, mass_flux: f64, v: f64) -> f64 {
        mass_flux * v
    }

    fn carried_energy(&self, energy: f64, v: f64, mom: f64) -> f64 {
        energy + 0.5 * v * mom
    }

    fn flows_up(&self, mass_flux: f64) -> bool {
        mass_flux >= 0.0
    }
}

impl Scheme2d for Rings {

    fn spacing_is_valid(&self) -> bool {
        positive(self.dr) && positive(self.dx)
    }

    fn starts_below_axis(&self) -> bool {
        self.r_min < 0.0
    }

    fn starts_on_axis(&self) -> bool {
        self.r_min == 0.0
    }

    fn admits(&self, w: Primitive2d) -> bool {
        positive(w.rho) && positive(w.p)
    }

    fn to_conserved(&self, w: Primitive2d) -> Conserved2d<f64> {
        self.conserved(w)
    }

    fn to_primitive(&self, u: Conserved2d<f64>) -> Primitive2d {
        self.primitive(u)
    }

    fn is_physical(&self, u: Conserved2d<f64>) -> bool {
        let w = self.primitive(u);
        positive(w.rho) && positive(w.p) && w.u_r.is_finite() && w.u_x.is_finite()
    }

    fn one(&self) -> f64 {
        1.0
    }

    fn negate(&self, a: f64) -> f64 {
        -a
    }

    fn is_positive(&self, x: f64) -> bool {
        positive(x)
    }

    fn is_source_interval(&self, dt: f64) -> bool {
        dt.is_finite() && !(dt < 0.0)
    }

    fn default_cfl(&self) -> f64 {
        0.8
    }

    fn cfl_is_valid(&self, cfl: f64) -> bool {
        positive(cfl) && !(cfl > 0.8)
    }

    fn r_speed(&self, u: Conserved2d<f64>) -> f64 {
        let w = self.primitive(u);
        w.u_r.abs() + self.gas.speed_of_sound(w.rho, w.p)
    }

    fn x_speed(&self, u: Conserved2d<f64>) -> f64 {
        let w = self.primitive(u);
        w.u_x.abs() + self.gas.speed_of_sound(w.rho, w.p)
    }

    fn crossing_rate(&self, r_speed: f64, x_speed: f64) -> f64 {
        (r_speed / self.dr).max(x_speed / self.dx)
    }

    fn courant_step(&self, cfl: f64, rate: f64) -> f64 {
        cfl / rate
    }

    fn violates(&self, dt: f64, limit: f64) -> bool {
        dt > limit * (1.0 + 1e-12)
    }

    fn is_before(&self, t: f64, t_end: f64) -> bool {
        t < t_end
    }

    fn clip(&self, dt: f64, t: f64, t_end: f64) -> f64 {
        dt.min(t_end - t)
    }

    fn r_centre(&self, j: usize) -> f64 {
        self.r_min + (j as f64 + 0.5) * self.dr
    }

    fn x_centre(&self, i: usize) -> f64 {
        self.x_min + (i as f64 + 0.5) * self.dx
    }

    fn dx(&self) -> f64 {
        self.dx
    }

    fn raw_radius(&self, k: isize) -> f64 {
        self.r_min + k as f64 * self.dr
    }

    fn is_inside_inner(&self, r: f64) -> bool {
        r < self.r_min
    }

    fn is_outside_outer(&self, n: usize, r: f64) -> bool {
        r > self.outer_edge(n)
    }

    fn reflect_inner(&self, r: f64) -> f64 {
        2.0 * self.r_min - r
    }

    fn reflect_outer(&self, n: usize, r: f64) -> f64 {
        2.0 * self.outer_edge(n) - r
    }

    fn annulus(&self, lo: f64, hi: f64) -> f64 {
        0.5 * (hi * hi - lo * lo)
    }

    fn half_weight(&self, dt: f64, volume: f64) -> f64 {
        0.5 * dt / volume
    }

    fn weight(&self, dt: f64, volume: f64) -> f64 {
        dt / volume
    }

    fn heat(&self, dt: f64, energy: f64, rate: f64) -> f64 {
        energy + dt * rate
    }

    fn push_outward(&self, dt: f64, cell: Conserved2d<f64>, r: f64) -> Conserved2d<f64> {
        let p = self.primitive(cell).p;
        Conserved2d {
            mom_r: cell.mom_r + dt * p / r,
            ..cell
        }
    }
}

impl Beam2d for Rings {
    type Line = Line;

    fn as_1d(&self, w: Primitive2d) -> Primitive {
        Primitive {
            rho: w.rho,
            u: 0.0,
            p: w.p,
        }
    }

    fn domain_is_valid(&self) -> bool {
        positive(self.length) && positive(self.radius)
    }

    fn is_hot_spot(&self, seed: SeededIgnition2d<f64>, ambient: Primitive2d) -> bool {
        positive(seed.width_x) && positive(seed.radius) && !(seed.pressure <= ambient.p)
    }

    fn is_beside_seed(&self, seed: SeededIgnition2d<f64>, x: f64) -> bool {
        (x - seed.centre_x).abs() <= 0.5 * seed.width_x
    }

    fn is_within(&self, r: f64, radius: f64) -> bool {
        r <= radius
    }

    fn decay(&self, r: f64, radius: f64, order: u32) -> f64 {
        (-(r / radius).powi(2 * order as i32)).exp()
    }

    fn predicted_rate(&self, w: Primitive2d, q: f64, dt: f64) -> f64 {
        let p = w.p + (self.gas.gamma - 1.0) * q * 0.5 * dt;
        let sound = self.gas.speed_of_sound(w.rho, p.max(w.p));
        ((w.u_r.abs() + sound) / self.dr).max((w.u_x.abs() + sound) / self.dx)
    }

    fn ring_of(&self, radius: f64) -> usize {
        (radius / self.dr).floor() as usize
    }

    fn is_disturbed(&self, w: Primitive2d, ambient: Primitive2d) -> bool {
        (w.p - ambient.p).abs() > 1e-6 * ambient.p
            || (w.rho - ambient.rho).abs() > 1e-6 * ambient.rho
    }

    fn beam_is_resolved(&self, radius: f64) -> bool {
        !(radius / self.dr < 8.0)
    }

    fn domain_is_wide(&self, n_r: usize, radius: f64) -> bool {
        !(self.dr * (n_r as f64) < 3.0 * radius)
    }

    fn is_near_laser(&self, x: f64) -> bool {
        x <= 2.0 * self.dx
    }

    fn has_deposited(&self, deposited: f64) -> bool {
        !(deposited <= 0.0)
    }

    fn budget_gap(&self, energy: f64, escaped: f64, initial: f64, deposited: f64) -> f64 {
        ((energy + escaped - initial) - deposited).abs() / deposited
    }
}

fn rings(dr: f64, dx: f64) -> Rings {
    Rings {
        gas: IdealGas::AIR,
        r_min: 0.0,
        x_min: 0.0,
        dr,
        dx,
        radius: dr,
        length: dx,
    }
}

fn ambient(u_r: f64, u_x: f64) -> Primitive2d {
    Primitive2d {
        rho: 1.2256,
        u_r,
        u_x,
        p: 101_325.0,
    }
}

const OPEN: [Boundary2d; 4] = [
    Boundary2d::Axis,
    Boundary2d::Transmissive,
    Boundary2d::Transmissive,
    Boundary2d::Transmissive,
];

const CLOSED: [Boundary2d; 4] = [
    Boundary2d::Axis,
    Boundary2d::Reflective,
    Boundary2d::Reflective,
    Boundary2d::Reflective,
];

fn uniform(geometry: Geometry, n_r: usize, n_x: usize, u_x: f64) -> Euler2d<Rings> {
    Euler2d::from_fn(rings(1e-4, 1e-4), geometry, OPEN, n_r, n_x, |_r: f64, _x: f64| {
        ambient(0.0, u_x)
    })
    .ok()
    .expect("uniform setup")
}

/// A hot core in a cold box.
fn blob(boundaries: [Boundary2d; 4], n: usize) -> Euler2d<Rings> {
    Euler2d::from_fn(
        rings(1e-4, 1e-4),
        Geometry::Axisymmetric,
        boundaries,
        n,
        n,
        |r: f64, _x: f64| Primitive2d {
            rho: 1.2256,
            u_r: 0.0,
            u_x: 0.0,
            p: if r < 4e-4 { 1e6 } else { 1e5 },
        },
    )
    .ok()
    .expect("blob setup")
}

#[test]
fn the_geometric_source_is_the_volume_average_of_one_over_r() {
    let g = Geometry::Axisymmetric;
    let dr = 1e-4;
    let k = rings(dr, dr);
    for j in 0..8 {
        let lo = j as f64 * dr;
        let hi = lo + dr;
        let ratio = (g.face_area(&k, hi) - g.face_area(&k, lo)) / g.cell_volume(&k, lo, hi);
        let centre = 0.5 * (lo + hi);
        assert!(
            (ratio - 1.0 / centre).abs() / (1.0 / centre) < 1e-15,
            "ring {j}: ratio {ratio:.17e} but 1/r is {:.17e}",
            1.0 / centre
        );
    }
    assert_eq!(g.face_area(&k, 0.0), 0.0);
    assert_eq!(Geometry::Planar.face_area(&k, 0.3), 1.0);
    assert_eq!(Geometry::Planar.cell_volume(&k, 1.0, 3.0), 2.0);
}

#[test]
fn a_radially_uniform_state_is_a_fixed_point_of_the_axisymmetric_operator() {
    let mut s = uniform(Geometry::Axisymmetric, 12, 8, 300.0);
    let before = s.cells().to_vec();
    let e0 = s.total_energy();
    let dt = s.stable_dt().expect("dt");
    for _ in 0..20 {
        s.step(dt).expect("step");
    }
    for (k, (&a, &b)) in before.iter().zip(s.cells()).enumerate() {
        assert_eq!(
            (a.rho, a.mom_r, a.mom_x),
            (b.rho, b.mom_r, b.mom_x),
            "cell {k}: a radially uniform state moved in mass or momentum"
        );
    }
    let drift = (s.total_energy() - e0).abs() / e0;
    assert!(drift < 1e-13, "uniform-state energy drift {drift:.3e}");
}

#[test]
fn a_uniform_state_is_a_bit_exact_fixed_point_in_planar_geometry() {
    let mut s = uniform(Geometry::Planar, 12, 8, 300.0);
    let before = s.cells().to_vec();
    let dt = s.stable_dt().expect("dt");
    for _ in 0..20 {
        s.step(dt).expect("step");
    }
    assert_eq!(before, s.cells(), "planar uniform state is not a fixed point");
}

#[test]
fn pack_removes_transverse_kinetic_energy_and_round_trips() {
    let k = rings(1e-4, 1e-4);
    let u = k.conserved(ambient(120.0, -450.0));
    for dir in [Dir::Axial, Dir::Radial] {
        let (packed, v_t) = pack(&k, u, dir);
        let p_2d = k.primitive(u).p;
        let p_1d = IdealGas::AIR.to_primitive(packed).p;
        assert!(
            (p_1d - p_2d).abs() / p_2d < 1e-14,
            "{dir:?}: packed pressure {p_1d:.6e}, 2-D pressure {p_2d:.6e}"
        );
        let restored = packed.energy + 0.5 * u.rho * v_t * v_t;
        assert!((restored - u.energy).abs() / u.energy < 1e-14);
        assert_eq!(pressure(&k, u, dir), p_1d);
    }
    assert_eq!(pack(&k, u, Dir::Axial).0.mom, u.mom_x);
    assert_eq!(pack(&k, u, Dir::Radial).0.mom, u.mom_r);
}

#[test]
fn a_flux_carries_the_transverse_momentum_of_its_upwind_side() {
    let k = rings(1e-4, 1e-4);
    let left = k.conserved(Primitive2d { u_r: 7.0, ..ambient(0.0, 300.0) });
    let right = k.conserved(Primitive2d { u_r: -9.0, ..ambient(0.0, 300.0) });
    let f = dir_hllc(&k, left, right, Dir::Axial);
    assert!(f.rho > 0.0);
    assert_eq!(f.mom_r, f.rho * 7.0);
    let back = |u: Conserved2d<f64>| Conserved2d { mom_x: -u.mom_x, ..u };
    let f = dir_hllc(&k, back(left), back(right), Dir::Axial);
    assert!(f.rho < 0.0);
    assert_eq!(f.mom_r, f.rho * -9.0);
    let (c, v) = pack(&k, left, Dir::Axial);
    assert_eq!(
        dir_flux(&k, left, Dir::Axial),
        unpack_flux(&k, IdealGas::AIR.flux(c), v, Dir::Axial)
    );
}

#[test]
fn the_axis_ghost_fill_flips_radial_momentum() {
    let k = rings(1e-4, 1e-4);
    let line: Vec<Conserved2d<f64>> = (0..8)
        .map(|j| {
            k.conserved(Primitive2d {
                rho: 1.0 + j as f64,
                u_r: 10.0 + j as f64,
                u_x: 3.0,
                p: 1e5,
            })
        })
        .collect();
    let fill = |flips: bool| {
        pad_line(
            &k,
            &line,
            Dir::Radial,
            Boundary2d::Axis,
            Boundary2d::Transmissive,
            flips,
        )
    };
    let padded = fill(true);
    for g in 0..N_GHOST {
        let ghost = padded[N_GHOST - 1 - g];
        assert_eq!(ghost.rho, line[g].rho);
        assert_eq!(ghost.mom_r, -line[g].mom_r);
        assert_eq!(ghost.mom_x, line[g].mom_x);
    }
    let broken = fill(false);
    assert_eq!(broken[N_GHOST - 1].mom_r, line[0].mom_r);
    // The open edge repeats the last cell.
    assert_eq!(padded[N_GHOST + 8], line[7]);
    assert_eq!(padded[N_GHOST + 9], line[7]);
    assert_eq!(mirror(&k, line[0], Dir::Axial, true).mom_x, -line[0].mom_x);
}

#[test]
fn ghost_radii_are_reflected_about_a_wall() {
    let k = rings(1.0, 1.0);
    let at = |raw: f64, lo: Boundary2d, hi: Boundary2d| ghost_face_radius(&k, 4, raw, lo, hi);
    let (wall, open) = (Boundary2d::Reflective, Boundary2d::Transmissive);
    assert_eq!(at(-2.0, Boundary2d::Axis, open), 2.0);
    assert_eq!(at(-2.0, open, open), -2.0);
    assert_eq!(at(5.0, Boundary2d::Axis, wall), 3.0);
    assert_eq!(at(5.0, Boundary2d::Axis, open), 5.0);
    assert_eq!(at(3.0, Boundary2d::Axis, wall), 3.0);
}

#[test]
fn cfl_above_the_cap_is_refused() {
    let mut s = uniform(Geometry::Planar, 8, 8, 0.0);
    assert_eq!(s.set_cfl(0.9), Err(Euler2dError::BadCfl));
    assert_eq!(s.set_cfl(0.0), Err(Euler2dError::BadCfl));
    assert!(s.set_cfl(0.4).is_ok());
    assert_eq!(s.cfl(), 0.4);
}

#[test]
fn a_step_beyond_the_cfl_limit_is_refused() {
    let mut s = uniform(Geometry::Planar, 8, 8, 0.0);
    let dt = s.stable_dt().expect("dt");
    assert_eq!(s.step(dt * 2.0), Err(Euler2dError::CflViolation { step: 0 }));
    assert_eq!(s.step(-dt), Err(Euler2dError::BadStep { step: 0 }));
}

#[test]
fn a_non_physical_initial_state_is_refused() {
    let bad = Euler2d::from_fn(
        rings(1e-3, 1e-3),
        Geometry::Planar,
        [Boundary2d::Transmissive; 4],
        8,
        8,
        |_r: f64, _x: f64| Primitive2d {
            rho: -1.0,
            u_r: 0.0,
            u_x: 0.0,
            p: 1e5,
        },
    );
    assert_eq!(
        bad.err(),
        Some(Euler2dError::BadInitialState { ring: 0, column: 0 })
    );
}

#[test]
fn an_axisymmetric_domain_at_the_axis_requires_the_axis_boundary() {
    let bad = Euler2d::from_fn(
        rings(1e-3, 1e-3),
        Geometry::Axisymmetric,
        [Boundary2d::Transmissive; 4],
        8,
        8,
        |_r: f64, _x: f64| ambient(0.0, 0.0),
    );
    assert_eq!(
        bad.err(),
        Some(Euler2dError::AxisNotDeclared {
            boundary: Boundary2d::Transmissive
        }),
        "the axis boundary requirement is not enforced"
    );
}

#[test]
fn a_mesh_must_hold_the_stencil_and_every_state() {
    let w = ambient(0.0, 0.0);
    let build = |k: Rings, n_r: usize, n_x: usize, count: usize| {
        Euler2d::new(k, Geometry::Planar, OPEN, n_r, n_x, &vec![w; count]).err()
    };
    let k = rings(1e-3, 1e-3);
    assert_eq!(build(k, 3, 8, 24), Some(Euler2dError::TooFewCells { n_r: 3, n_x: 8 }));
    assert_eq!(build(k, 8, 3, 24), Some(Euler2dError::TooFewCells { n_r: 8, n_x: 3 }));
    assert_eq!(build(k, 4, 4, 15), Some(Euler2dError::WrongCount { states: 15 }));
    assert_eq!(build(rings(0.0, 1e-3), 4, 4, 16), Some(Euler2dError::BadSpacing));
    assert_eq!(
        build(Rings { r_min: -1.0, ..k }, 4, 4, 16),
        Some(Euler2dError::NegativeRadius)
    );
    assert_eq!(build(k, 4, 4, 16), None);
    let mut states = vec![w; 20];
    states[13] = Primitive2d { p: 0.0, ..w };
    assert_eq!(
        Euler2d::new(k, Geometry::Planar, OPEN, 4, 5, &states).err(),
        Some(Euler2dError::BadInitialState { ring: 2, column: 3 })
    );
}

#[test]
fn the_geometric_source_breaks_radial_momentum_conservation_only() {
    let mut s = blob(CLOSED, 16);
    let (m0, e0, px0) = (s.total_mass(), s.total_energy(), s.total_axial_momentum());
    let dt = s.stable_dt().expect("dt");
    for _ in 0..30 {
        let dt = s.stable_dt().expect("dt").min(dt);
        s.step(dt).expect("step");
    }
    assert!((s.total_mass() - m0).abs() / m0 < 1e-13, "mass not conserved");
    assert!((s.total_energy() - e0).abs() / e0 < 1e-13, "energy not conserved");
    assert!(
        (s.total_axial_momentum() - px0).abs() < 1e-9 * m0,
        "axial momentum not conserved"
    );
    assert!(
        s.total_radial_momentum().abs() > 0.0,
        "radial momentum is conserved, which means the geometric source is missing"
    );
    assert_eq!(s.escaped_energy(), 0.0, "nothing escapes a closed box");
    assert_eq!(s.steps(), 30);
}

#[test]
fn what_escapes_an_open_edge_is_accounted_for() {
    let mut s = blob(OPEN, 12);
    let e0 = s.total_energy();
    s.advance_to(4e-6).expect("run");
    assert_eq!(s.time(), 4e-6);
    let gone = s.escaped_energy();
    assert!(gone > 1e-3 * e0, "escaped {gone} of {e0}");
    assert!((s.total_energy() + gone - e0).abs() / e0 < 1e-12);
}

#[test]
fn the_planar_sweep_is_the_line_update_bit_for_bit() {
    let (n, dx) = (64, 1.0 / 64.0);
    let at = |x: f64| {
        if x < 0.5 { (1.0, 1.0) } else { (0.125, 0.1) }
    };
    let mut flat = Euler1d::from_fn(
        Line::new(IdealGas::AIR, 0.0, dx, 1.0),
        Boundary::Transmissive,
        n,
        |x: f64| Primitive { rho: at(x).0, u: 0.0, p: at(x).1 },
    )
    .ok()
    .unwrap();
    let mut s = Euler2d::from_fn(
        rings(dx, dx),
        Geometry::Planar,
        [Boundary2d::Transmissive; 4],
        4,
        n,
        |_r: f64, x: f64| Primitive2d { rho: at(x).0, u_r: 0.0, u_x: 0.0, p: at(x).1 },
    )
    .ok()
    .unwrap();
    for _ in 0..10 {
        let dt = flat.stable_dt().unwrap();
        assert_eq!(s.stable_dt().unwrap(), 0.8 / (flat.max_wave_speed() / dx));
        let dt = dt.min(s.stable_dt().unwrap());
        flat.step(dt).unwrap();
        s.step(dt).unwrap();
    }
    for j in 0..4 {
        for (i, c) in flat.cells().iter().enumerate() {
            let u = s.cell(j, i);
            assert_eq!((u.rho, u.mom_x, u.energy), (c.rho, c.mom, c.energy), "cell {j}, {i}");
            assert_eq!(u.mom_r, 0.0);
        }
    }
}

#[test]
fn an_even_axis_and_a_split_source_are_not_the_scheme() {
    let run = |step: fn(&mut Euler2d<Rings>, f64) -> Result<(), Euler2dError>| {
        let mut s = blob(CLOSED, 12);
        for _ in 0..5 {
            let dt = s.stable_dt().unwrap();
            step(&mut s, dt).unwrap();
        }
        s.cells().to_vec()
    };
    let right = run(|s, dt| s.step(dt));
    let even = run(|s, dt| s.step_with_even_parity_axis_for_gate_contrast(dt));
    let split = run(|s, dt| s.step_with_split_geometric_source_for_gate_contrast(dt));
    assert!(right != even);
    assert!(right != split);
    // On the plane there is no geometric source to split off.
    let mut a = uniform(Geometry::Planar, 8, 8, 10.0);
    let mut b = uniform(Geometry::Planar, 8, 8, 10.0);
    let dt = a.stable_dt().unwrap();
    a.step(dt).unwrap();
    b.step_with_split_geometric_source_for_gate_contrast(dt).unwrap();
    assert_eq!(a.cells(), b.cells());
}

#[test]
fn a_source_lands_in_the_cells_that_it_names() {
    let mut s = uniform(Geometry::Planar, 4, 5, 0.0);
    let before = s.cells().to_vec();
    s.add_energy(1e-9, |j: usize, i: usize, _r: f64, _x: f64| {
        if (j, i) == (2, 3) { 1e12 } else { 0.0 }
    })
    .unwrap();
    for (k, (a, b)) in before.iter().zip(s.cells()).enumerate() {
        let gained = if k == 13 { 1e3 } else { 0.0 };
        assert_eq!(b.energy, a.energy + gained, "cell {k}");
    }
    assert_eq!(s.steps(), 0);
    assert_eq!(
        s.add_energy(1e-9, |j: usize, _i: usize, _r: f64, _x: f64| {
            if j == 1 { -1e15 } else { 0.0 }
        }),
        Err(Euler2dError::NonPhysical { stage: Stage2d::EnergySource, step: 0, j: 1, i: 0 })
    );
    let mut s = uniform(Geometry::Planar, 4, 5, 0.0);
    assert_eq!(
        s.add_energy(f64::NAN, |_j: usize, _i: usize, _r: f64, _x: f64| 0.0),
        Err(Euler2dError::BadSourceInterval)
    );
    let dt = s.stable_dt().unwrap();
    let e0 = s.total_energy();
    s.step_with_source(dt, |_j: usize, _i: usize, _r: f64, _x: f64| 1e9).unwrap();
    // Four rings of five cells of 1e-4 by 1e-4.
    let expected = e0 + 1e9 * dt * 20.0 * 1e-8;
    assert!((s.total_energy() - expected).abs() / expected < 1e-13);
    assert_eq!(Stage2d::HalfStep(Dir::Radial).name(), "r-sweep MUSCL half-step");
}

#[test]
fn the_first_bad_cell_is_found() {
    let k = rings(1e-4, 1e-4);
    let good = k.conserved(ambient(1.0, 2.0));
    let bad = Conserved2d { rho: f64::NAN, ..good };
    assert_eq!(find_bad(&k, &[good, good]), None);
    assert_eq!(find_bad(&k, &[good, bad, bad]), Some(1));
}

#[test]
fn the_geometric_source_balances_the_pressure_of_a_uniform_cell() {
    let k = rings(1e-4, 1e-4);
    let u = k.conserved(ambient(0.0, 0.0));
    let metric = Metric { lower: 3e-4, upper: 4e-4, volume: 3.5e-8 };
    let faces = weighted_faces(&k, 0.1, Dir::Radial, u, u, u, metric, true);
    assert_eq!((faces.left, faces.right, faces.centre), (u, u, u));
    let flux = dir_hllc(&k, u, u, Dir::Radial);
    let v = weighted_update(&k, 0.1, Dir::Radial, u, flux, flux, metric, true, u);
    assert_eq!(v.mom_r, u.mom_r);
    // Without the source the difference of the areas pushes.
    let v = weighted_update(&k, 0.1, Dir::Radial, u, flux, flux, metric, false, u);
    assert!(v.mom_r < 0.0);
    assert!((v.mom_r + 0.1 * 1e-4 * 101_325.0).abs() < 1e-9);
    // With equal areas a uniform flux does nothing at all.
    let flat = Metric { lower: 1.0, upper: 1.0, volume: 1e-4 };
    let moving = k.conserved(ambient(30.0, 40.0));
    let flux = dir_flux(&k, moving, Dir::Axial);
    assert_eq!(
        weighted_update(&k, 0.1, Dir::Axial, moving, flux, flux, flat, false, moving),
        moving
    );
}

#[test]
fn a_uniform_line_on_unit_areas_comes_back_bit_for_bit() {
    let k = rings(1e-4, 1e-4);
    for (dir, geometric) in [(Dir::Axial, false), (Dir::Radial, false), (Dir::Radial, true)] {
        let line = [k.conserved(ambient(30.0, 40.0)); 8];
        let open = Boundary2d::Transmissive;
        let (up, _) = sweep_line(
            &k, &line, 1e-8, dir, open, open, &[1.0; 13], &[1e-4; 12], geometric, true, 0, 0,
        )
        .unwrap();
        assert_eq!(up, line);
    }
}

#[test]
fn a_line_loses_what_is_reported_at_its_ends() {
    let k = rings(1e-4, 1e-4);
    let areas: Vec<f64> = (0..13).map(|i| 1e-3 + 1e-4 * i as f64).collect();
    let volumes: Vec<f64> = (0..12).map(|i| 0.5e-4 * (areas[i] + areas[i + 1])).collect();
    let line: Vec<Conserved2d<f64>> = (0..8)
        .map(|i| {
            k.conserved(Primitive2d {
                rho: 1.0 + 0.1 * i as f64,
                u_r: 50.0 - 5.0 * i as f64,
                u_x: 20.0 + 10.0 * i as f64,
                p: 1e5 + 5e3 * i as f64,
            })
        })
        .collect();
    let open = Boundary2d::Transmissive;
    for geometric in [false, true] {
        let (up, escaped) = sweep_line(
            &k, &line, 1e-8, Dir::Radial, open, open, &areas, &volumes, geometric, true, 0, 0,
        )
        .unwrap();
        let gain: f64 = (0..8)
            .map(|i| volumes[N_GHOST + i] * (up[i].energy - line[i].energy))
            .sum();
        assert!(escaped != 0.0);
        assert!((gain + escaped).abs() < 1e-9 * escaped.abs(), "{gain} and {escaped}");
    }
}

fn wide(n_r: usize, n_x: usize) -> (Rings, Line) {
    let (radius, length) = (3e-3, 1e-2);
    let k = Rings {
        gas: IdealGas::AIR,
        r_min: 0.0,
        x_min: 0.0,
        dr: radius / n_r as f64,
        dx: length / n_x as f64,
        radius,
        length,
    };
    (k, Line::pencil(IdealGas::AIR, k.dx, length))
}

const SEED: SeededIgnition2d<f64> = SeededIgnition2d {
    centre_x: 7e-3,
    width_x: 1e-3,
    radius: 1e-3,
    pressure: 3e7,
};

const TOP_HAT: BeamProfile<f64> = BeamProfile::TopHat { radius: 1e-3 };

fn grey(alpha: f64) -> Absorption<f64> {
    Absorption::GreyThreshold { alpha, e_ignite: 2e6 }
}

fn air() -> Primitive2d {
    Primitive2d { rho: 1.225, u_r: 0.0, u_x: 0.0, p: 101_325.0 }
}

fn column(n_r: usize, n_x: usize) -> Lsd2dColumn<Rings> {
    let (k, line) = wide(n_r, n_x);
    Lsd2dColumn::seeded(k, line, n_r, n_x, air(), SEED, grey(4e3), 1e11, TOP_HAT)
        .ok()
        .unwrap()
}

#[test]
fn each_ring_absorbs_its_own_pencil() {
    let c = column(24, 64);
    let q = c.deposition().unwrap();
    let i = c.intensity_profile().unwrap();
    let alpha = c.alpha_profile().unwrap();
    let dx = 1e-2 / 64.0;
    for j in 0..24 {
        let inside = (j as f64 + 0.5) * (3e-3 / 24.0) <= 1e-3;
        let entering = if inside { 1e11 } else { 0.0 };
        assert_eq!(*i.at(j, 0), entering);
        let last = *i.at(j, 63) * (-*alpha.at(j, 63) * dx).exp();
        let absorbed: f64 = (0..64).map(|x| *q.at(j, x)).sum::<f64>() * dx;
        assert!((absorbed - (entering - last)).abs() <= 1e-12 * 1e11, "ring {j}");
        assert!((0..64).all(|x| *q.at(j, x) >= 0.0), "ring {j} gives light back");
        if inside {
            assert!(absorbed > 0.5e11);
        }
    }
}

#[test]
fn the_beam_profile_falls_off() {
    let (k, _) = wide(8, 8);
    assert_eq!(TOP_HAT.weight(&k, 1e-3), 1.0);
    assert_eq!(TOP_HAT.weight(&k, 1.1e-3), 0.0);
    let soft = BeamProfile::SuperGaussian { radius: 1e-3, order: 2 };
    assert_eq!(soft.weight(&k, 0.0), 1.0);
    assert_eq!(soft.weight(&k, 1e-3), (-1.0f64).exp());
    assert_eq!(soft.weight(&k, 2e-3), (-16.0f64).exp());
    assert_eq!(soft.radius(), 1e-3);
}

#[test]
fn the_two_dimensional_budget_closes() {
    let mut c = column(24, 96);
    assert_eq!(c.energy_residual(), 0.0);
    let x0 = c.front_position().unwrap();
    c.advance_to(1e-7).unwrap();
    assert!(c.deposited_energy() > 0.0);
    assert!(c.energy_residual() < 1e-10, "residual {}", c.energy_residual());
    assert!(c.front_position().unwrap() < x0, "the front runs toward the laser");
    assert!(c.boundaries_undisturbed());
    assert_eq!(c.front_position(), c.front_position_at(0));
    // At the beam edge the front is still there, and lags.
    assert!(c.front_lag_at_beam_edge().unwrap() >= 0.0);
    assert_eq!(c.incident_intensity(), 1e11);
    assert_eq!(c.beam(), TOP_HAT);
}

#[test]
fn a_two_dimensional_regime_is_checked() {
    let check = |n_r: usize, n_x: usize, alpha: f64, beam: BeamProfile<f64>, seed: SeededIgnition2d<f64>| {
        let (k, line) = wide(n_r, n_x);
        Lsd2dColumn::seeded(k, line, n_r, n_x, air(), seed, grey(alpha), 1e11, beam)
            .ok()
            .unwrap()
            .check_regime()
            .err()
    };
    assert_eq!(check(24, 256, 4e3, TOP_HAT, SEED), None);
    let Some(Lsd2dError::Unresolved { cells }) = check(24, 64, 4e3, TOP_HAT, SEED) else {
        panic!("resolved");
    };
    assert!(cells < 5.0);
    let Some(Lsd2dError::Volumetric { share }) = check(24, 64, 5e2, TOP_HAT, SEED) else {
        panic!("a front");
    };
    assert!(share > 0.1);
    assert_eq!(check(12, 256, 4e3, TOP_HAT, SEED), Some(Lsd2dError::BeamUnresolved));
    let broad = BeamProfile::TopHat { radius: 1.5e-3 };
    assert_eq!(check(24, 256, 4e3, broad, SEED), Some(Lsd2dError::DomainTooNarrow));
    let at_edge = SeededIgnition2d { centre_x: 0.0, ..SEED };
    assert_eq!(check(24, 256, 4e3, TOP_HAT, at_edge), Some(Lsd2dError::FrontAtBoundary));
    let (k, line) = wide(24, 256);
    let cold = Lsd2dColumn::seeded(
        k,
        line,
        24,
        256,
        air(),
        SEED,
        Absorption::GreyThreshold { alpha: 4e3, e_ignite: 1e12 },
        1e11,
        TOP_HAT,
    )
    .ok()
    .unwrap();
    assert_eq!(cold.check_regime(), Err(Lsd2dError::NothingAbsorbs));
    let weak = SeededIgnition2d { pressure: 5e5, ..SEED };
    let faint = Lsd2dColumn::seeded(
        k,
        line,
        24,
        256,
        air(),
        weak,
        Absorption::GreyThreshold { alpha: 4e3, e_ignite: 5e5 },
        1e11,
        TOP_HAT,
    )
    .ok()
    .unwrap();
    let Err(Lsd2dError::WeakFront { ratio }) = faint.check_regime() else {
        panic!("strong");
    };
    assert!(ratio < 10.0);
}

/// Air that absorbs `cold` per metre below two thousand kelvin and `hot` above.
fn two_valued(cold: f64, hot: f64) -> Absorption<f64> {
    let wavelength = 10.6e-6;
    let mut data = Vec::with_capacity(4 * N_T * N_P);
    for prop in 0..4 {
        for i in 0..N_T {
            let t = PlasmaAxes::T_MIN + i as f64 * PlasmaAxes::T_STEP;
            let alpha = if t < 2000.0 { cold } else { hot };
            let unit = wide(24, 256).1.free_free(wavelength, 1.0, 1.0, 1.0, 1.0, t);
            for j in 0..N_P {
                let p = 10f64.powf(PlasmaAxes::P_LOG10_MIN + j as f64 / PlasmaAxes::P_PER_DECADE);
                data.push(match prop {
                    0 => (p / (287.0 * t)).ln(),
                    1 => 717.5 * t,
                    2 => 1.4,
                    _ => 0.5 * (alpha / unit).ln(),
                });
            }
        }
    }
    Absorption::InverseBremsstrahlung {
        wavelength,
        gaunt: 1.0,
        table: PlasmaTable::load((4, N_T, N_P), data).ok().unwrap(),
        ceiling: IonizationCeiling::Refuse,
    }
}

#[test]
fn a_beam_spent_before_the_front_is_refused() {
    let (k, line) = wide(24, 256);
    let seed = SeededIgnition2d { pressure: 5e6, ..SEED };
    let check = |cold: f64| {
        Lsd2dColumn::seeded(k, line, 24, 256, air(), seed, two_valued(cold, 4e3), 1e11, TOP_HAT)
            .ok()
            .unwrap()
            .check_regime()
            .err()
    };
    // Over the six and a half millimetres ahead of the seed.
    let Some(Lsd2dError::Extinguished { fraction }) = check(100.0) else {
        panic!("reached");
    };
    assert!(fraction < 0.9);
    assert_eq!(check(1.0), None);
}

#[test]
fn the_budget_closes_in_a_slab_too() {
    let (k, line) = wide(24, 96);
    let mut c = Lsd2dColumn::seeded_with_geometry(
        k,
        line,
        Geometry::Planar,
        24,
        96,
        air(),
        SEED,
        grey(4e3),
        1e11,
        TOP_HAT,
    )
    .ok()
    .unwrap();
    let before = c.hydro().total_energy();
    c.advance_to(1e-7).unwrap();
    let gained = c.hydro().total_energy() - before + c.hydro().escaped_energy();
    assert!((gained / c.deposited_energy() - 1.0).abs() < 1e-10);
    assert!(c.energy_residual() < 1e-10);
}

#[test]
fn heating_leaves_mass_and_momentum_alone() {
    let mut c = column(24, 64);
    c.advance_to(1e-8).unwrap();
    let s = c.hydro_mut();
    let (mass, energy) = (s.total_mass(), s.total_energy());
    let (radial, axial) = (s.total_radial_momentum(), s.total_axial_momentum());
    s.add_energy(1e-9, |_j: usize, _i: usize, _r: f64, _x: f64| 1e15).unwrap();
    assert_eq!(s.total_mass(), mass);
    assert_eq!((s.total_radial_momentum(), s.total_axial_momentum()), (radial, axial));
    assert!(s.total_energy() > energy);
}

#[test]
fn a_two_dimensional_setup_must_make_sense() {
    let (k, line) = wide(24, 64);
    let build = |k: Rings, seed: SeededIgnition2d<f64>, incident: f64| {
        Lsd2dColumn::seeded(k, line, 24, 64, air(), seed, grey(4e3), incident, TOP_HAT).err()
    };
    assert_eq!(build(k, SEED, 0.0), Some(Lsd2dError::BadIncident));
    assert_eq!(build(Rings { radius: 0.0, ..k }, SEED, 1e11), Some(Lsd2dError::BadDomain));
    let weak = SeededIgnition2d { pressure: 101_325.0, ..SEED };
    assert_eq!(build(k, weak, 1e11), Some(Lsd2dError::BadSeed));
    assert_eq!(build(k, SEED, 1e11), None);
    let planar = Lsd2dColumn::seeded_with_geometry(
        k,
        line,
        Geometry::Planar,
        24,
        64,
        air(),
        SEED,
        grey(4e3),
        1e11,
        TOP_HAT,
    )
    .ok()
    .unwrap();
    assert_eq!(planar.hydro().geometry(), Geometry::Planar);
    assert_eq!(column(24, 64).hydro().geometry(), Geometry::Axisymmetric);
    let few = Lsd2dColumn::seeded(k, line, 3, 64, air(), SEED, grey(4e3), 1e11, TOP_HAT).err();
    assert_eq!(
        few,
        Some(Lsd2dError::Hydro(Euler2dError::TooFewCells { n_r: 3, n_x: 64 }))
    );
}

#[test]
fn a_rim_sees_what_reaches_it() {
    let mut c = column(24, 64);
    assert!(c.rim_undisturbed() && c.downstream_undisturbed() && c.axial_boundaries_undisturbed());
    // Heat the last ring by hand.
    c.hydro_mut()
        .add_energy(1e-9, |j: usize, i: usize, _r: f64, _x: f64| {
            if j == 23 && i == 5 { 1e12 } else { 0.0 }
        })
        .unwrap();
    assert!(!c.rim_undisturbed());
    assert!(c.downstream_undisturbed() && c.axial_boundaries_undisturbed());
    assert!(!c.boundaries_undisturbed());
    let quiet = SeededIgnition2d { pressure: 1.2e5, ..SEED };
    let (k, line) = wide(24, 64);
    let mut c = Lsd2dColumn::seeded(k, line, 24, 64, air(), quiet, grey(4e3), 1e11, TOP_HAT)
        .ok()
        .unwrap();
    assert_eq!(c.measure_front_speed(1e-9), Err(Lsd2dError::NoFront));
    let mut c = column(24, 64);
    let (x0, d) = (c.front_position().unwrap(), c.measure_front_speed(2e-8).unwrap());
    assert_eq!(d, (x0 - c.front_position().unwrap()) / 2e-8);
    assert!(c.stable_dt().unwrap() > 0.0);
    let wrapped: Lsd2dError<f64> = Lsd2dError::Absorption(LsdError::NothingAbsorbs);
    assert!(c.advance(1.0) != Err(wrapped));
}

#[test]
fn a_wall_mirrors_the_faces_and_lets_nothing_through() {
    let k = rings(1e-4, 1e-4);
    for dir in [Dir::Radial, Dir::Axial] {
        let cell = |p: f64, v: f64, w: f64| {
            k.conserved(Primitive2d { rho: 1.0 + 1e-6 * p, u_r: v, u_x: w, p })
        };
        let (a, b) = (cell(101_325.0, 40.0, -25.0), cell(140_000.0, 55.0, 10.0));
        let (x, y) = (mirror(&k, a, dir, true), mirror(&k, b, dir, true));
        let metric = Metric { lower: 3e-4, upper: 4e-4, volume: 3.5e-8 };
        let turned = Metric { lower: 4e-4, upper: 3e-4, volume: 3.5e-8 };
        let geometric = dir == Dir::Radial;
        let inside = weighted_faces(&k, 1e-3, dir, x, a, b, metric, geometric);
        let outside = weighted_faces(&k, 1e-3, dir, y, x, a, turned, geometric);
        let image = mirror(&k, inside.left, dir, true);
        let close = |p: f64, q: f64| (p - q).abs() <= 1e-12 * (p.abs() + q.abs());
        assert!(close(image.rho, outside.right.rho));
        assert!(close(image.mom_r, outside.right.mom_r));
        assert!(close(image.mom_x, outside.right.mom_x));
        assert!(close(image.energy, outside.right.energy));
        let f = dir_hllc(&k, image, inside.left, dir);
        let through = dir_flux(&k, inside.left, dir);
        assert!(f.rho.abs() < 1e-12 * through.rho.abs());
        assert!(f.energy.abs() < 1e-12 * through.energy.abs());
        assert!(f.transverse(dir).abs() < 1e-12 * through.transverse(dir).abs());
        assert!(f.parallel(dir) > 0.0);
    }
}

#[test]
fn a_stream_between_open_ends_is_kept() {
    let k = rings(1e-4, 1e-4);
    let open = Boundary2d::Transmissive;
    let stream = [k.conserved(ambient(0.0, 250.0)); 8];
    let (up, escaped) = sweep_line(
        &k, &stream, 1e-8, Dir::Axial, open, open, &[1.0; 13], &[1e-4; 12], false, true, 0, 0,
    )
    .unwrap();
    assert_eq!(up, stream);
    // What enters at one end leaves at the other.
    assert_eq!(escaped, 0.0);
}

#[test]
fn a_wide_beam_drives_every_ring_as_one_column() {
    let (n_r, n_x) = (6, 64);
    let (k, line) = wide(n_r, n_x);
    let seed = SeededIgnition2d { radius: 1.0, ..SEED };
    let everywhere = BeamProfile::TopHat { radius: 1.0 };
    let mut slab = Lsd2dColumn::seeded_with_geometry(
        k, line, Geometry::Planar, n_r, n_x, air(), seed, grey(4e3), 1e11, everywhere,
    )
    .ok()
    .unwrap();
    let still = Primitive { rho: 1.225, u: 0.0, p: 101_325.0 };
    let spot = SeededIgnition {
        centre: seed.centre_x,
        width: seed.width_x,
        pressure: seed.pressure,
    };
    let mut column = LsdColumn::seeded(line, n_x, still, spot, grey(4e3), 1e11).ok().unwrap();
    for _ in 0..40 {
        let dt = slab.stable_dt().unwrap();
        slab.advance(dt).unwrap();
        column.advance(dt).unwrap();
        assert_eq!(slab.hydro().time(), column.hydro().time());
        for (m, u) in slab.hydro().cells().iter().enumerate() {
            let v = column.hydro().cells()[m % n_x];
            assert_eq!((u.rho, u.mom_r, u.mom_x, u.energy), (v.rho, 0.0, v.mom, v.energy));
        }
    }
    assert!(column.deposited_energy() > 0.0);
}

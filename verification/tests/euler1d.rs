use beamprop::euler1d::{Boundary, Conserved, Euler1d, EulerError, Scheme1d, Stage, N_GHOST};
use beamprop::riemann::{
    flux_update, hancock_faces, hllc_flux, limited_slope, minmod, wave_bounds, Acoustics,
};

/// Density, velocity and pressure.
type Primitive = beamprop::euler1d::Primitive<f64>;

/// A calorically perfect gas.
#[derive(Debug, Clone, Copy, PartialEq)]
struct IdealGas {
    gamma: f64,
}

impl IdealGas {
    const AIR: Self = Self { gamma: 1.4 };

    fn speed_of_sound(&self, rho: f64, p: f64) -> f64 {
        (self.gamma * p / rho).sqrt()
    }

    fn specific_internal_energy(&self, rho: f64, p: f64) -> f64 {
        p / ((self.gamma - 1.0) * rho)
    }

    fn to_conserved(&self, w: Primitive) -> Conserved<f64> {
        Conserved {
            rho: w.rho,
            mom: w.rho * w.u,
            energy: w.p / (self.gamma - 1.0) + 0.5 * w.rho * w.u * w.u,
        }
    }

    fn to_primitive(&self, u: Conserved<f64>) -> Primitive {
        let v = u.mom / u.rho;
        Primitive {
            rho: u.rho,
            u: v,
            p: (self.gamma - 1.0) * (u.energy - 0.5 * u.mom * v),
        }
    }
}

/// A positive, finite number; not a number is neither.
fn positive(x: f64) -> bool {
    x > 0.0 && x.is_finite()
}

impl Acoustics for IdealGas {
    type Real = f64;

    fn zero(&self) -> f64 {
        0.0
    }

    fn plus(&self, a: f64, b: f64) -> f64 {
        a + b
    }

    fn minus(&self, a: f64, b: f64) -> f64 {
        a - b
    }

    fn times(&self, a: f64, b: f64) -> f64 {
        a * b
    }

    fn half(&self, x: f64) -> f64 {
        0.5 * x
    }

    fn smaller(&self, a: f64, b: f64) -> f64 {
        a.min(b)
    }

    fn larger(&self, a: f64, b: f64) -> f64 {
        a.max(b)
    }

    fn root(&self, x: f64) -> f64 {
        x.sqrt()
    }

    fn opposes(&self, a: f64, b: f64) -> bool {
        a * b <= 0.0
    }

    fn is_flatter(&self, a: f64, b: f64) -> bool {
        a.abs() < b.abs()
    }

    fn exceeds_zero(&self, x: f64) -> bool {
        x > 0.0
    }

    fn is_forward(&self, x: f64) -> bool {
        x >= 0.0
    }

    fn is_backward(&self, x: f64) -> bool {
        x <= 0.0
    }

    fn flux(&self, u: Conserved<f64>) -> Conserved<f64> {
        let w = self.to_primitive(u);
        Conserved {
            rho: u.mom,
            mom: u.mom * w.u + w.p,
            energy: (u.energy + w.p) * w.u,
        }
    }

    fn velocity(&self, u: Conserved<f64>) -> f64 {
        self.to_primitive(u).u
    }

    fn sound_speed(&self, u: Conserved<f64>) -> f64 {
        let w = self.to_primitive(u);
        self.speed_of_sound(w.rho, w.p)
    }

    fn pressure(&self, u: Conserved<f64>) -> f64 {
        self.to_primitive(u).p
    }

    fn roe(&self, left: Conserved<f64>, right: Conserved<f64>) -> (f64, f64) {
        let (wl, wr) = (self.to_primitive(left), self.to_primitive(right));
        let (sl, sr) = (wl.rho.sqrt(), wr.rho.sqrt());
        let u = (sl * wl.u + sr * wr.u) / (sl + sr);
        let hl = (left.energy + wl.p) / wl.rho;
        let hr = (right.energy + wr.p) / wr.rho;
        let h = (sl * hl + sr * hr) / (sl + sr);
        (u, (self.gamma - 1.0) * (h - 0.5 * u * u))
    }

    fn contact(&self, left: Conserved<f64>, right: Conserved<f64>, s_left: f64, s_right: f64) -> f64 {
        let (wl, wr) = (self.to_primitive(left), self.to_primitive(right));
        let ml = wl.rho * (s_left - wl.u);
        let mr = wr.rho * (s_right - wr.u);
        (wr.p - wl.p + ml * wl.u - mr * wr.u) / (ml - mr)
    }

    fn star(&self, u: Conserved<f64>, s: f64, s_star: f64) -> Conserved<f64> {
        let w = self.to_primitive(u);
        let coef = w.rho * (s - w.u) / (s - s_star);
        Conserved {
            rho: coef,
            mom: coef * s_star,
            energy: coef
                * (u.energy / w.rho + (s_star - w.u) * (s_star + w.p / (w.rho * (s - w.u)))),
        }
    }
}

/// A gas on a uniform line.
#[derive(Debug, Clone, Copy, PartialEq)]
struct Line {
    gas: IdealGas,
    x_min: f64,
    dx: f64,
    length: f64,
    /// Fewest cells that an absorption length may span.
    min_cells: f64,
    /// Largest share of the line that an absorption length may span.
    max_share: f64,
}

impl Line {
    /// A line on its own.
    fn new(gas: IdealGas, x_min: f64, dx: f64, length: f64) -> Self {
        Self {
            gas,
            x_min,
            dx,
            length,
            min_cells: 4.0,
            max_share: 0.25,
        }
    }

    /// A pencil of a wider beam.
    fn pencil(gas: IdealGas, dx: f64, length: f64) -> Self {
        Self {
            min_cells: 5.0,
            max_share: 0.1,
            ..Self::new(gas, 0.0, dx, length)
        }
    }
}

impl Acoustics for Line {
    type Real = f64;

    fn zero(&self) -> f64 {
        Acoustics::zero(&self.gas)
    }

    fn plus(&self, a: f64, b: f64) -> f64 {
        Acoustics::plus(&self.gas, a, b)
    }

    fn minus(&self, a: f64, b: f64) -> f64 {
        Acoustics::minus(&self.gas, a, b)
    }

    fn times(&self, a: f64, b: f64) -> f64 {
        Acoustics::times(&self.gas, a, b)
    }

    fn half(&self, x: f64) -> f64 {
        Acoustics::half(&self.gas, x)
    }

    fn smaller(&self, a: f64, b: f64) -> f64 {
        Acoustics::smaller(&self.gas, a, b)
    }

    fn larger(&self, a: f64, b: f64) -> f64 {
        Acoustics::larger(&self.gas, a, b)
    }

    fn root(&self, x: f64) -> f64 {
        Acoustics::root(&self.gas, x)
    }

    fn opposes(&self, a: f64, b: f64) -> bool {
        Acoustics::opposes(&self.gas, a, b)
    }

    fn is_flatter(&self, a: f64, b: f64) -> bool {
        Acoustics::is_flatter(&self.gas, a, b)
    }

    fn exceeds_zero(&self, x: f64) -> bool {
        Acoustics::exceeds_zero(&self.gas, x)
    }

    fn is_forward(&self, x: f64) -> bool {
        Acoustics::is_forward(&self.gas, x)
    }

    fn is_backward(&self, x: f64) -> bool {
        Acoustics::is_backward(&self.gas, x)
    }

    fn flux(&self, u: Conserved<f64>) -> Conserved<f64> {
        Acoustics::flux(&self.gas, u)
    }

    fn velocity(&self, u: Conserved<f64>) -> f64 {
        Acoustics::velocity(&self.gas, u)
    }

    fn sound_speed(&self, u: Conserved<f64>) -> f64 {
        Acoustics::sound_speed(&self.gas, u)
    }

    fn pressure(&self, u: Conserved<f64>) -> f64 {
        Acoustics::pressure(&self.gas, u)
    }

    fn roe(&self, left: Conserved<f64>, right: Conserved<f64>) -> (f64, f64) {
        Acoustics::roe(&self.gas, left, right)
    }

    fn contact(&self, left: Conserved<f64>, right: Conserved<f64>, s_left: f64, s_right: f64) -> f64 {
        Acoustics::contact(&self.gas, left, right, s_left, s_right)
    }

    fn star(&self, u: Conserved<f64>, s: f64, s_star: f64) -> Conserved<f64> {
        Acoustics::star(&self.gas, u, s, s_star)
    }
}

impl Scheme1d for Line {
    fn spacing_is_valid(&self) -> bool {
        positive(self.dx)
    }

    fn admits(&self, w: Primitive) -> bool {
        positive(w.rho) && positive(w.p)
    }

    fn to_conserved(&self, w: Primitive) -> Conserved<f64> {
        self.gas.to_conserved(w)
    }

    fn to_primitive(&self, u: Conserved<f64>) -> Primitive {
        self.gas.to_primitive(u)
    }

    fn is_physical(&self, u: Conserved<f64>) -> bool {
        let w = self.gas.to_primitive(u);
        positive(w.rho) && positive(w.p) && w.u.is_finite()
    }

    fn is_positive(&self, x: f64) -> bool {
        positive(x)
    }

    fn is_source_interval(&self, dt: f64) -> bool {
        dt.is_finite() && !(dt < 0.0)
    }

    fn default_cfl(&self) -> f64 {
        0.8
    }

    fn cfl_is_valid(&self, cfl: f64) -> bool {
        positive(cfl) && !(cfl > 0.8)
    }

    fn wave_speed(&self, u: Conserved<f64>) -> f64 {
        let w = self.gas.to_primitive(u);
        w.u.abs() + self.gas.speed_of_sound(w.rho, w.p)
    }

    fn courant_step(&self, cfl: f64, speed: f64) -> f64 {
        cfl * self.dx / speed
    }

    fn violates(&self, dt: f64, limit: f64) -> bool {
        dt > limit * (1.0 + 1e-12)
    }

    fn is_before(&self, t: f64, t_end: f64) -> bool {
        t < t_end
    }

    fn clip(&self, dt: f64, t: f64, t_end: f64) -> f64 {
        dt.min(t_end - t)
    }

    fn x_centre(&self, i: usize) -> f64 {
        self.x_min + (i as f64 + 0.5) * self.dx
    }

    fn half_weight(&self, dt: f64) -> f64 {
        0.5 * dt / self.dx
    }

    fn weight(&self, dt: f64) -> f64 {
        dt / self.dx
    }

    fn heat(&self, dt: f64, energy: f64, rate: f64) -> f64 {
        energy + dt * rate
    }

    fn integral(&self, sum: f64) -> f64 {
        sum * self.dx
    }
}

fn line(x_min: f64, dx: f64) -> Line {
    Line::new(IdealGas::AIR, x_min, dx, dx)
}

fn sod_left() -> Primitive {
    Primitive {
        rho: 1.0,
        u: 0.0,
        p: 1.0,
    }
}

fn sod_right() -> Primitive {
    Primitive {
        rho: 0.125,
        u: 0.0,
        p: 0.1,
    }
}

fn sod(n: usize) -> Euler1d<Line> {
    Euler1d::from_fn(line(0.0, 1.0 / n as f64), Boundary::Transmissive, n, |x: f64| {
        if x < 0.5 { sod_left() } else { sod_right() }
    })
    .unwrap()
}

fn still(n: usize, p: f64) -> Euler1d<Line> {
    let w = Primitive { rho: 1.0, u: 0.0, p };
    Euler1d::from_fn(line(0.0, 1e-3), Boundary::Periodic, n, |_x: f64| w).unwrap()
}

#[test]
fn primitive_conserved_roundtrip() {
    let gas = IdealGas::AIR;
    let w = Primitive {
        rho: 1.3,
        u: -420.0,
        p: 2.5e5,
    };
    let s = Euler1d::new(line(0.0, 1e-3), Boundary::Periodic, &[w; 4]).unwrap();
    assert_eq!(s.cells()[0], gas.to_conserved(w));
    let back = s.primitives()[0];
    assert!((back.rho - w.rho).abs() < 1e-15);
    assert!((back.u - w.u).abs() < 1e-9);
    assert!((back.p - w.p).abs() / w.p < 1e-15);
}

#[test]
fn uniform_flow_is_a_fixed_point() {
    let w = Primitive {
        rho: 1.2,
        u: 300.0,
        p: 1e5,
    };
    let mut s = Euler1d::from_fn(line(0.0, 1e-3), Boundary::Periodic, 64, |_x: f64| w).unwrap();
    let dt = s.stable_dt().unwrap();
    s.step(dt).unwrap();
    for got in s.primitives() {
        assert!(
            (got.rho - w.rho).abs() / w.rho < 1e-14,
            "density drifted: {got:?}"
        );
        assert!(
            (got.u - w.u).abs() / w.u.abs() < 1e-12,
            "velocity drifted: {got:?}"
        );
        assert!((got.p - w.p).abs() / w.p < 1e-12, "pressure drifted: {got:?}");
    }
}

#[test]
fn hllc_reduces_to_upwind_in_supersonic_flow() {
    let gas = IdealGas::AIR;
    let fast_right = gas.to_conserved(Primitive {
        rho: 1.0,
        u: 2000.0,
        p: 1e5,
    });
    let f = hllc_flux(&gas, fast_right, fast_right);
    let exact = gas.flux(fast_right);
    assert!((f.rho - exact.rho).abs() / exact.rho.abs() < 1e-14);
    assert!((f.mom - exact.mom).abs() / exact.mom.abs() < 1e-14);
    assert!((f.energy - exact.energy).abs() / exact.energy.abs() < 1e-14);
}

#[test]
fn hllc_takes_the_side_that_the_waves_come_from() {
    let gas = IdealGas::AIR;
    let slow = gas.to_conserved(sod_left());
    let fast_left = gas.to_conserved(Primitive {
        rho: 1.0,
        u: -2000.0,
        p: 1e5,
    });
    assert_eq!(hllc_flux(&gas, fast_left, fast_left), gas.flux(fast_left));
    // Between equal states at rest only the pressure crosses.
    let f = hllc_flux(&gas, slow, slow);
    assert_eq!(f.rho, 0.0);
    assert_eq!(f.mom, 1.0);
    assert_eq!(f.energy, 0.0);
    // The outermost waves of the shock tube run away from the interface, and
    // the flux carries mass from the dense side.
    let (s_l, s_r) = wave_bounds(&gas, slow, gas.to_conserved(sod_right()));
    assert!(s_l < 0.0 && s_r > 0.0);
    assert_eq!(s_l, -(1.4f64).sqrt());
    assert!(hllc_flux(&gas, slow, gas.to_conserved(sod_right())).rho > 0.0);
    assert!(hllc_flux(&gas, gas.to_conserved(sod_right()), slow).rho < 0.0);
}

#[test]
fn minmod_is_flat_at_an_extremum() {
    let gas = IdealGas::AIR;
    assert_eq!(minmod(&gas, 1.0, -2.0), 0.0);
    assert_eq!(minmod(&gas, 0.0, 2.0), 0.0);
    assert_eq!(minmod(&gas, 1.0, 2.0), 1.0);
    assert_eq!(minmod(&gas, 3.0, 2.0), 2.0);
    assert_eq!(minmod(&gas, -1.0, -2.0), -1.0);
}

#[test]
fn a_cell_gives_up_its_share_of_the_flux_difference() {
    let gas = IdealGas::AIR;
    let u = Conserved { rho: 1.0, mom: 2.0, energy: 3.0 };
    let lo = Conserved { rho: 0.5, mom: 1.0, energy: 8.0 };
    let hi = Conserved { rho: 1.0, mom: 0.0, energy: 4.0 };
    assert_eq!(
        flux_update(&gas, 0.25, u, lo, hi),
        Conserved { rho: 0.875, mom: 2.25, energy: 4.0 }
    );
    assert_eq!(flux_update(&gas, 0.25, u, lo, lo), u);
}

#[test]
fn faces_of_a_linear_state_are_half_a_slope_away() {
    let gas = IdealGas::AIR;
    let at = |x: f64| Conserved {
        rho: 1.0 + x,
        mom: 0.0,
        energy: 2.5,
    };
    let s = limited_slope(&gas, at(0.0), at(0.5), at(1.5));
    assert_eq!((s.rho, s.mom, s.energy), (0.5, 0.0, 0.0));
    // With no weight on the fluxes the faces are the bare ones.
    let (lo, hi) = hancock_faces(&gas, 0.0, at(0.0), at(0.5), at(1.5));
    assert_eq!(lo.rho, 1.25);
    assert_eq!(hi.rho, 1.75);
    // With it they move by the difference of their own fluxes.
    let before = Conserved { rho: 1.0, mom: 0.5, energy: 3.0 };
    let cell = Conserved { rho: 1.5, mom: 0.75, energy: 3.0 };
    let after = Conserved { rho: 2.0, mom: 1.0, energy: 3.0 };
    let (lo0, hi0) = hancock_faces(&gas, 0.0, before, cell, after);
    let (lo1, hi1) = hancock_faces(&gas, 0.1, before, cell, after);
    let d = gas.flux(lo0).mom - gas.flux(hi0).mom;
    assert!(d != 0.0);
    assert_eq!(lo1.mom, lo0.mom + 0.1 * d);
    assert_eq!(hi1.mom, hi0.mom + 0.1 * d);
}

#[test]
fn periodic_advection_conserves_mass_and_energy() {
    let mut s = Euler1d::from_fn(line(0.0, 1.0 / 128.0), Boundary::Periodic, 128, |x: f64| {
        Primitive {
            rho: 1.0 + 0.2 * (2.0 * std::f64::consts::PI * x).sin(),
            u: 1.0,
            p: 1.0,
        }
    })
    .unwrap();
    let (m0, e0) = (s.total_mass(), s.total_energy());
    s.advance_to(0.2).unwrap();
    assert!((s.total_mass() - m0).abs() / m0 < 1e-13, "mass drift");
    assert!((s.total_energy() - e0).abs() / e0 < 1e-13, "energy drift");
    assert!((s.time() - 0.2).abs() < 1e-15);
    assert!(s.steps() > 0);
}

#[test]
fn sod_stays_monotone_and_bounded() {
    let mut s = sod(200);
    s.advance_to(0.2).unwrap();
    for w in s.primitives() {
        assert!(
            w.rho > 0.9 * sod_right().rho && w.rho < 1.1 * sod_left().rho,
            "density out of range: {w:?}"
        );
        assert!(
            w.p > 0.0 && w.p < 1.1 * sod_left().p,
            "pressure out of range: {w:?}"
        );
    }
}

#[test]
fn energy_source_lands_exactly_in_the_budget() {
    let mut s = still(32, 1e5);
    let e0 = s.total_energy();
    let dt = s.stable_dt().unwrap();
    let s_dot = 1e9;
    s.step_with_source(dt, |_i: usize, _x: f64| s_dot).unwrap();
    let expected = e0 + s_dot * dt * 32.0 * 1e-3;
    assert!((s.total_energy() - expected).abs() / expected < 1e-14);
}

#[test]
fn add_energy_deposits_without_advancing_the_clock() {
    let mut s = still(32, 1e5);
    let e0 = s.total_energy();
    s.add_energy(1e-9, |_i: usize, _x: f64| 1e12).unwrap();
    let expected = e0 + 1e12 * 1e-9 * 32.0 * 1e-3;
    assert!((s.total_energy() - expected).abs() / expected < 1e-14);
    assert_eq!(s.time(), 0.0, "add_energy advanced the clock");
    assert_eq!(s.steps(), 0, "add_energy counted a step");
    s.add_energy(0.0, |_i: usize, _x: f64| 1e12).unwrap();
    assert!((s.total_energy() - expected).abs() / expected < 1e-14);
}

#[test]
fn add_energy_that_empties_a_cell_bails_loudly() {
    let mut s = still(8, 1e5);
    let err = s.add_energy(1e-9, |_i: usize, _x: f64| -1e15).unwrap_err();
    assert_eq!(
        err,
        EulerError::NonPhysical {
            stage: Stage::EnergySource,
            step: 0,
            cell: 0,
            is_ghost: false
        }
    );
    assert_eq!(Stage::EnergySource.name(), "energy source");
}

#[test]
fn the_positivity_bail_names_the_cell_it_means() {
    let s = sod(16);
    let gas = IdealGas::AIR;
    let good = gas.to_conserved(Primitive {
        rho: 1.0,
        u: 0.0,
        p: 1.0,
    });
    let mut cells = vec![good; 5];
    cells[3] = Conserved { rho: -1.0, ..good };

    // Interior array: element 3 is cell 3.
    let stage = Stage::ConservativeUpdate;
    let named = |cell: isize, is_ghost: bool| EulerError::NonPhysical {
        stage,
        step: 0,
        cell,
        is_ghost,
    };
    assert_eq!(s.assert_physical(&cells, stage, 0).unwrap_err(), named(3, false));
    assert_eq!(s.scheme().x_centre(3), 3.5 / 16.0);

    // Reconstruction slice: element 3 is interior cell 3 + (1 - N_GHOST) = 2.
    assert_eq!(
        s.assert_physical(&cells, stage, 1 - N_GHOST as isize).unwrap_err(),
        named(2, false)
    );

    // And a genuine ghost is labelled rather than passed off as interior.
    let mut ghost = vec![good; 2];
    ghost[0] = Conserved { rho: -1.0, ..good };
    assert_eq!(
        s.assert_physical(&ghost, stage, 1 - N_GHOST as isize).unwrap_err(),
        named(-1, true)
    );
    assert_eq!(s.assert_physical(&[good; 2], stage, 0), Ok(()));
    assert_eq!(
        s.assert_physical(&cells, stage, 14).unwrap_err(),
        named(17, true)
    );
}

#[test]
fn cfl_violation_bails() {
    let mut s = sod(64);
    let dt = s.stable_dt().unwrap();
    let before = s.cells().to_vec();
    let err = s.step(10.0 * dt).unwrap_err();
    assert_eq!(err, EulerError::CflViolation { step: 0 });
    assert_eq!(s.cells(), &before[..]);
    assert_eq!(s.step(0.0).unwrap_err(), EulerError::BadStep { step: 0 });
    assert_eq!(s.step(f64::NAN).unwrap_err(), EulerError::BadStep { step: 0 });
}

#[test]
fn negative_initial_pressure_is_refused() {
    let err = Euler1d::from_fn(line(0.0, 1e-3), Boundary::Periodic, 8, |_x: f64| Primitive {
        rho: 1.0,
        u: 0.0,
        p: -1.0,
    })
    .err();
    assert_eq!(err, Some(EulerError::BadInitialState { index: 0 }));
}

#[test]
fn source_that_empties_a_cell_bails_loudly() {
    let mut s = still(8, 1e5);
    let dt = s.stable_dt().unwrap();
    let err = s
        .step_with_source(dt, |_i: usize, _x: f64| -1e5 / dt * 10.0)
        .unwrap_err();
    assert_eq!(
        err,
        EulerError::NonPhysical {
            stage: Stage::ConservativeUpdate,
            step: 0,
            cell: 0,
            is_ghost: false
        }
    );
}

#[test]
fn a_domain_must_hold_the_stencil_and_have_a_spacing() {
    let w = sod_left();
    assert_eq!(
        Euler1d::new(line(0.0, 1e-3), Boundary::Periodic, &[w; 3]).err(),
        Some(EulerError::TooFewCells { cells: 3 })
    );
    assert_eq!(
        Euler1d::new(line(0.0, 0.0), Boundary::Periodic, &[w; 4]).err(),
        Some(EulerError::BadSpacing)
    );
    assert_eq!(
        Euler1d::new(line(0.0, f64::NAN), Boundary::Periodic, &[w; 4]).err(),
        Some(EulerError::BadSpacing)
    );
    let bad = Primitive { rho: f64::NAN, ..w };
    assert_eq!(
        Euler1d::new(line(0.0, 1e-3), Boundary::Periodic, &[w, w, bad, w]).err(),
        Some(EulerError::BadInitialState { index: 2 })
    );
    let s = Euler1d::new(line(0.0, 1e-3), Boundary::Periodic, &[w; 4]).unwrap();
    assert_eq!(s.len(), 4);
    assert!(!s.is_empty());
}

#[test]
fn the_courant_number_is_capped() {
    let mut s = sod(16);
    assert_eq!(s.cfl(), 0.8);
    assert_eq!(s.set_cfl(0.9), Err(EulerError::BadCfl));
    assert_eq!(s.set_cfl(0.0), Err(EulerError::BadCfl));
    assert_eq!(s.set_cfl(f64::NAN), Err(EulerError::BadCfl));
    assert_eq!(s.cfl(), 0.8);
    assert_eq!(s.set_cfl(0.4), Ok(()));
    let c = 1.4f64.sqrt();
    assert_eq!(s.max_wave_speed(), c);
    assert_eq!(s.stable_dt(), Ok(0.4 * (1.0 / 16.0) / c));
}

#[test]
fn a_source_interval_is_not_negative() {
    let mut s = still(8, 1e5);
    let none = |_i: usize, _x: f64| 0.0;
    assert_eq!(
        s.add_energy(-1.0, none),
        Err(EulerError::BadSourceInterval { step: 0 })
    );
    assert_eq!(
        s.add_energy(f64::INFINITY, none),
        Err(EulerError::BadSourceInterval { step: 0 })
    );
}

#[test]
fn ghosts_wrap_around_or_repeat_the_edge() {
    let states: Vec<Primitive> = (1..6)
        .map(|i| Primitive {
            rho: i as f64,
            u: 0.0,
            p: 1.0,
        })
        .collect();
    let rho = |b: Boundary| -> Vec<f64> {
        Euler1d::new(line(0.0, 1.0), b, &states)
            .unwrap()
            .with_ghosts()
            .iter()
            .map(|u| u.rho)
            .collect()
    };
    assert_eq!(
        rho(Boundary::Transmissive),
        vec![1.0, 1.0, 1.0, 2.0, 3.0, 4.0, 5.0, 5.0, 5.0]
    );
    assert_eq!(
        rho(Boundary::Periodic),
        vec![4.0, 5.0, 1.0, 2.0, 3.0, 4.0, 5.0, 1.0, 2.0]
    );
}

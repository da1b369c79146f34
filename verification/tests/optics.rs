use beamprop::airprops::AirProperties;
use beamprop::aperture::{Aperture, ApertureError, Pupil, TiltRemoval};
use beamprop::blooming::{BloomingError, BloomingRefusal, Heating, ThermalBlooming};
use beamprop::cases::{
    crop_middle_x, frame_every, run_propagate, run_turbulence, stack, substeps, Path, PathCase,
    PathError, PropagateParams, TurbulenceCase, TurbulenceParams,
};
use beamprop::field::{Field, IntensityScale, ScaleError};
use beamprop::grid::{checked_grid, Grid, GridError};
use beamprop::medium::{
    kruse_extinction, ConstantDeltaN, Haze, Medium, UniformExtinction, Vacuum,
};
use beamprop::optics::{is_extinction, Optics};
use beamprop::plane::Plane;
use beamprop::propagate::{beam_width, centroid, DiffractionMethod, PropagateError, Propagator};
use beamprop::viz::XzSliceMap;
use ndarray::Array2;
use ndrustfft::{ndfft, ndifft, FftHandler};
use num_complex::Complex64;
use std::f64::consts::PI;

/// Share of the half-extent where the absorbing edge lets everything through.
const INTERIOR: f64 = 0.8;
/// Exponent of the absorbing edge.
const EDGE_POWER: f64 = 4.0;
/// The edge lets through `exp(-EDGE_STRENGTH)` at the border of the grid.
const EDGE_STRENGTH: f64 = 20.0;
/// Relative power allowed outside the interior at the start of a run.
const CONTAINMENT: f64 = 1e-9;
/// Fewest samples across a beam width.
const SAMPLES_PER_WIDTH: f64 = 4.0;

/// Scalar optics in double precision on one grid at one wavelength.
#[derive(Debug, Clone, Copy)]
struct Light {
    n: usize,
    dx: f64,
    wavelength: f64,
}

impl Light {
    fn new(n: usize, dx: f64, wavelength: f64) -> Self {
        Light { n, dx, wavelength }
    }

    fn extent(&self) -> f64 {
        self.n as f64 * self.dx
    }

    fn coord(&self, i: usize) -> f64 {
        (i as f64 - self.n as f64 / 2.0) * self.dx
    }

    fn k(&self) -> f64 {
        2.0 * PI / self.wavelength
    }

    fn critical_distance(&self) -> f64 {
        self.n as f64 * self.dx * self.dx / self.wavelength
    }

    fn transform(&self, u: &Plane<Complex64>, back: bool) -> Plane<Complex64> {
        let n = self.n;
        let handler: FftHandler<f64> = FftHandler::new(n);
        let a = Array2::from_shape_vec((n, n), u.as_slice().to_vec()).expect("a square plane");
        let mut b = Array2::zeros((n, n));
        let mut c = Array2::zeros((n, n));
        if back {
            ndifft(&a, &mut b, &handler, 1);
            ndifft(&b, &mut c, &handler, 0);
        } else {
            ndfft(&a, &mut b, &handler, 0);
            ndfft(&b, &mut c, &handler, 1);
        }
        Plane::from_vec(n, n, c.into_raw_vec_and_offset().0).expect("a square plane")
    }
}

impl Optics for Light {
    type Real = f64;

    type Complex = Complex64;

    fn zero(&self) -> f64 {
        0.0
    }

    fn is_zero(&self, x: f64) -> bool {
        x == 0.0
    }

    fn plus(&self, a: f64, b: f64) -> f64 {
        a + b
    }

    fn times(&self, a: f64, b: f64) -> f64 {
        a * b
    }

    fn ratio(&self, a: f64, b: f64) -> f64 {
        a / b
    }

    fn larger(&self, a: f64, b: f64) -> f64 {
        a.max(b)
    }

    fn smaller(&self, a: f64, b: f64) -> f64 {
        a.min(b)
    }

    fn exceeds(&self, a: f64, b: f64) -> bool {
        a > b
    }

    fn is_positive(&self, x: f64) -> bool {
        x > 0.0 && x.is_finite()
    }

    fn same_length(&self, a: f64, b: f64) -> bool {
        a == b
    }

    fn half(&self, x: f64) -> f64 {
        x / 2.0
    }

    fn spacing(&self) -> f64 {
        self.dx
    }

    fn wavelength(&self) -> f64 {
        self.wavelength
    }

    fn is_subcritical(&self, dz: f64) -> bool {
        dz <= self.critical_distance()
    }

    fn wavenumber(&self, frequency: isize) -> f64 {
        2.0 * PI * frequency as f64 / (self.n as f64 * self.dx)
    }

    fn transfer(&self, dz: f64, kx: f64, ky: f64) -> Complex64 {
        let k = self.k();
        let kz2 = k * k - (kx * kx + ky * ky);
        if kz2 >= 0.0 {
            Complex64::from_polar(1.0, dz * kz2.sqrt())
        } else {
            Complex64::new((-dz * (-kz2).sqrt()).exp(), 0.0)
        }
    }

    fn impulse(&self, dz: f64, x: isize, y: isize) -> Complex64 {
        let k = self.k();
        let (x, y) = (x as f64 * self.dx, y as f64 * self.dx);
        let prefactor =
            Complex64::from_polar(1.0, k * dz) / Complex64::new(0.0, self.wavelength * dz);
        prefactor
            * Complex64::from_polar(1.0, k * (x * x + y * y) / (2.0 * dz))
            * (self.dx * self.dx)
    }

    fn forward(&self, u: &Plane<Complex64>) -> Plane<Complex64> {
        self.transform(u, false)
    }

    fn inverse(&self, u: &Plane<Complex64>) -> Plane<Complex64> {
        self.transform(u, true)
    }

    fn product(&self, a: Complex64, b: Complex64) -> Complex64 {
        a * b
    }

    fn intensity(&self, u: Complex64) -> f64 {
        u.norm_sqr()
    }

    fn power(&self, sum: f64) -> f64 {
        sum * (self.dx * self.dx)
    }

    fn gaussian(&self, w0: f64, x: isize, y: isize) -> Complex64 {
        let (x, y) = (x as f64 * self.dx, y as f64 * self.dx);
        Complex64::new((-(x * x + y * y) / (w0 * w0)).exp(), 0.0)
    }

    fn retard(&self, u: Complex64, dn: f64, dz: f64) -> Complex64 {
        u * Complex64::from_polar(1.0, self.k() * dn * dz)
    }

    fn retard_and_decay(&self, u: Complex64, dn: f64, alpha: f64, dz: f64) -> Complex64 {
        u * Complex64::from_polar((-0.5 * alpha * dz).exp(), self.k() * dn * dz)
    }

    fn edge(&self, i: usize) -> f64 {
        let half = self.extent() / 2.0;
        let r0 = INTERIOR * half;
        let r = self.coord(i).abs();
        if r <= r0 {
            1.0
        } else {
            (-EDGE_STRENGTH * ((r - r0) / (half - r0)).powf(EDGE_POWER)).exp()
        }
    }

    fn mask(&self, u: Complex64, m: f64) -> Complex64 {
        u * m
    }

    fn absorb(&self, total: f64, before: f64, after: f64) -> f64 {
        total + (before - after)
    }

    fn phase_jump(&self, a: f64, b: f64, dz: f64) -> f64 {
        (self.k() * (b - a) * dz).abs()
    }

    fn is_aliased(&self, jump: f64) -> bool {
        jump >= PI
    }

    fn is_interior(&self, i: usize) -> bool {
        self.coord(i).abs() <= INTERIOR * (self.extent() / 2.0)
    }

    fn has_power(&self, total: f64) -> bool {
        total > 0.0
    }

    fn is_contained(&self, inside: f64, total: f64) -> bool {
        !(1.0 - inside / total > CONTAINMENT)
    }

    fn add_moment(&self, m: f64, p: f64, i: usize) -> f64 {
        m + p * self.coord(i)
    }

    fn add_spread(&self, v: f64, p: f64, i: usize, centre: f64) -> f64 {
        let d = self.coord(i) - centre;
        v + p * d * d
    }

    fn width(&self, v: f64, total: f64) -> f64 {
        2.0 * (v / total).sqrt()
    }

    fn is_resolved(&self, width: f64) -> bool {
        !(width < SAMPLES_PER_WIDTH * self.dx)
    }
}

impl Haze for Light {
    fn kilometres(&self, visibility: f64) -> f64 {
        visibility / 1e3
    }

    fn is_clear(&self, km: f64) -> bool {
        km > 50.0
    }

    fn is_average(&self, km: f64) -> bool {
        km > 6.0
    }

    fn clear_exponent(&self) -> f64 {
        1.6
    }

    fn average_exponent(&self) -> f64 {
        1.3
    }

    fn haze_exponent(&self, km: f64) -> f64 {
        0.585 * km.cbrt()
    }

    fn kruse_law(&self, wavelength: f64, visibility: f64, q: f64) -> f64 {
        (3.912 / visibility) * (wavelength / 550e-9).powf(-q)
    }
}

impl PathCase for Light {
    fn default_path(&self, w0: f64) -> f64 {
        2.0 * PI * w0 * w0 / self.wavelength
    }

    fn slab(&self, path: f64, steps: usize) -> f64 {
        path / steps as f64
    }

    fn distance(&self, step: usize, dz: f64) -> f64 {
        step as f64 * dz
    }

    fn members(&self, n: usize) -> f64 {
        n as f64
    }
}

/// Fewest samples across a pupil.
const SAMPLES_ACROSS: f64 = 16.0;

impl Pupil for Light {
    fn fits(&self, n: usize, diameter: f64) -> bool {
        !(diameter > n as f64 * self.dx)
    }

    fn samples_across(&self, diameter: f64) -> f64 {
        diameter / self.dx
    }

    fn is_sampled(&self, across: f64) -> bool {
        !(across < SAMPLES_ACROSS)
    }

    fn box_low(&self, n: usize, diameter: f64) -> usize {
        (n as f64 / 2.0 - 0.5 * diameter / self.dx).floor().max(0.0) as usize
    }

    fn box_high(&self, n: usize, diameter: f64) -> usize {
        (n as f64 / 2.0 + 0.5 * diameter / self.dx).ceil() as usize
    }

    fn is_inside(&self, x: isize, y: isize, diameter: f64) -> bool {
        let (x, y) = (x as f64 * self.dx, y as f64 * self.dx);
        x * x + y * y <= 0.25 * diameter * diameter
    }

    fn coordinate(&self, x: isize) -> f64 {
        x as f64 * self.dx
    }

    fn minus(&self, a: f64, b: f64) -> f64 {
        a - b
    }

    fn count(&self, n: usize) -> f64 {
        n as f64
    }

    fn dark(&self) -> Complex64 {
        Complex64::new(0.0, 0.0)
    }

    fn superpose(&self, a: Complex64, b: Complex64) -> Complex64 {
        a + b
    }

    fn amplitude_integral(&self, sum: Complex64) -> (f64, f64) {
        let da = self.dx * self.dx;
        (sum.re * da, sum.im * da)
    }

    fn modulus(&self, u: Complex64) -> f64 {
        u.norm()
    }

    fn area_integral(&self, sum: f64) -> f64 {
        sum * (self.dx * self.dx)
    }

    fn determinant(&self, m: [[f64; 3]; 3]) -> f64 {
        m[0][0] * (m[1][1] * m[2][2] - m[1][2] * m[2][1])
            - m[0][1] * (m[1][0] * m[2][2] - m[1][2] * m[2][0])
            + m[0][2] * (m[1][0] * m[2][1] - m[1][1] * m[2][0])
    }

    fn is_singular(&self, det: f64) -> bool {
        det.abs() <= f64::MIN_POSITIVE
    }

    fn residual(&self, phase: f64, plane: (f64, f64, f64), x: f64, y: f64) -> f64 {
        phase - plane.0 - plane.1 * x - plane.2 * y
    }

    fn wavenumber_of(&self, wavelength: f64) -> f64 {
        2.0 * PI / wavelength
    }

    fn flow(&self, u: Complex64, before: Complex64, after: Complex64) -> f64 {
        (u.conj() * ((after - before) * (0.5 / self.dx))).im
    }
}

/// Least Péclet number of the convective model.
const MIN_PECLET: f64 = 100.0;
/// Largest temperature rise over the ambient temperature.
const MAX_RISE: f64 = 0.1;

impl Heating for Light {
    fn lacks_power(&self, power: f64) -> bool {
        power <= 0.0
    }

    fn is_absorption(&self, alpha: f64) -> bool {
        alpha >= 0.0 && alpha.is_finite()
    }

    fn peclet(&self, air: AirProperties<f64>, wind: f64, width: f64) -> f64 {
        air.rho * air.cp * wind * width / air.kappa_t
    }

    fn is_convective(&self, peclet: f64) -> bool {
        !(peclet < MIN_PECLET)
    }

    fn heat_coefficient(&self, alpha: f64, air: AirProperties<f64>, wind: f64) -> f64 {
        alpha / (air.rho * air.cp * wind)
    }

    fn midpoint_decay(&self, alpha: f64, dz: f64) -> f64 {
        (-0.5 * alpha * dz).exp()
    }

    fn index_drop(&self, index_coeff: f64, heat_coeff: f64, scale: f64, decay: f64) -> f64 {
        -index_coeff * heat_coeff * scale * decay
    }

    fn trapezoid(&self, cum: f64, before: f64, at: f64, dx: f64) -> f64 {
        cum + 0.5 * (before + at) * dx
    }

    fn rise(&self, heat_coeff: f64, scale: f64, cum: f64) -> f64 {
        heat_coeff * scale * cum
    }

    fn is_small(&self, rise: f64, t0: f64) -> bool {
        rise < MAX_RISE * t0
    }
}

/// Screens of random waves, fixed by a seed and a member.
struct Screens {
    dz: f64,
    substeps: usize,
    screens: Vec<Plane<f64>>,
}

fn scramble(x: u64) -> u64 {
    let mut z = x.wrapping_add(0x9E37_79B9_7F4A_7C15);
    z = (z ^ (z >> 30)).wrapping_mul(0xBF58_476D_1CE4_E5B9);
    z = (z ^ (z >> 27)).wrapping_mul(0x94D0_49BB_1331_11EB);
    z ^ (z >> 31)
}

fn unit(x: u64) -> f64 {
    (scramble(x) >> 11) as f64 / (1u64 << 53) as f64
}

impl Medium<Light> for Screens {
    type Refusal = ();

    fn index_perturbation(&self, optics: &Light, z_slab: usize) -> Plane<f64> {
        if z_slab % self.substeps == 0 {
            let s = &self.screens[z_slab / self.substeps];
            s.map(|v: f64| v)
        } else {
            Plane::filled(optics.n, optics.n, 0.0)
        }
    }

    fn slab_count(&self, _optics: &Light) -> Option<usize> {
        Some(self.screens.len() * self.substeps)
    }
}

impl Path<Light> for Screens {
    fn dz(&self, _optics: &Light) -> f64 {
        self.dz
    }

    fn n_slabs(&self, _optics: &Light) -> usize {
        self.screens.len() * self.substeps
    }
}

impl TurbulenceCase for Light {
    type Path = Screens;

    fn path(&self, p: TurbulenceParams<f64>, substeps: usize, member: u64) -> Screens {
        let dz = p.z / (p.screens * substeps) as f64;
        let light = *self;
        let screens = (0..p.screens as u64)
            .map(|s| {
                let key = scramble(p.seed ^ scramble(member ^ scramble(s)));
                let (a, b, phase) = (unit(key) - 0.5, unit(key + 1) - 0.5, unit(key + 2) * 2.0 * PI);
                let amp = 1e-9 * (p.cn2 / 1e-14).sqrt();
                Plane::from_fn(p.n, p.n, move |j: usize, i: usize| {
                    let (x, y) = (light.coord(i), light.coord(j));
                    amp * (2.0 * PI * (a * x + b * y) / 0.05 + phase).sin()
                })
            })
            .collect();
        Screens { dz, substeps, screens }
    }
}

/// Optics of which a transform can lose the last row and column of a plane.
#[derive(Debug, Clone, Copy)]
struct Cropping {
    light: Light,
    keeps_forward: bool,
    keeps_inverse: bool,
}

fn cropped(u: &Plane<Complex64>) -> Plane<Complex64> {
    Plane::from_fn(u.height() - 1, u.width() - 1, |j: usize, i: usize| *u.at(j, i))
}

impl Optics for Cropping {
    type Real = f64;

    type Complex = Complex64;

    fn zero(&self) -> f64 {
        self.light.zero()
    }

    fn is_zero(&self, x: f64) -> bool {
        self.light.is_zero(x)
    }

    fn plus(&self, a: f64, b: f64) -> f64 {
        self.light.plus(a, b)
    }

    fn times(&self, a: f64, b: f64) -> f64 {
        self.light.times(a, b)
    }

    fn ratio(&self, a: f64, b: f64) -> f64 {
        self.light.ratio(a, b)
    }

    fn larger(&self, a: f64, b: f64) -> f64 {
        self.light.larger(a, b)
    }

    fn smaller(&self, a: f64, b: f64) -> f64 {
        self.light.smaller(a, b)
    }

    fn exceeds(&self, a: f64, b: f64) -> bool {
        self.light.exceeds(a, b)
    }

    fn is_positive(&self, x: f64) -> bool {
        self.light.is_positive(x)
    }

    fn same_length(&self, a: f64, b: f64) -> bool {
        self.light.same_length(a, b)
    }

    fn half(&self, x: f64) -> f64 {
        self.light.half(x)
    }

    fn spacing(&self) -> f64 {
        self.light.spacing()
    }

    fn wavelength(&self) -> f64 {
        self.light.wavelength()
    }

    fn is_subcritical(&self, dz: f64) -> bool {
        self.light.is_subcritical(dz)
    }

    fn wavenumber(&self, frequency: isize) -> f64 {
        self.light.wavenumber(frequency)
    }

    fn transfer(&self, dz: f64, kx: f64, ky: f64) -> Complex64 {
        self.light.transfer(dz, kx, ky)
    }

    fn impulse(&self, dz: f64, x: isize, y: isize) -> Complex64 {
        self.light.impulse(dz, x, y)
    }

    fn forward(&self, u: &Plane<Complex64>) -> Plane<Complex64> {
        if self.keeps_forward {
            self.light.forward(u)
        } else {
            cropped(u)
        }
    }

    fn inverse(&self, u: &Plane<Complex64>) -> Plane<Complex64> {
        if self.keeps_inverse {
            self.light.inverse(u)
        } else {
            cropped(u)
        }
    }

    fn product(&self, a: Complex64, b: Complex64) -> Complex64 {
        self.light.product(a, b)
    }

    fn intensity(&self, u: Complex64) -> f64 {
        self.light.intensity(u)
    }

    fn power(&self, sum: f64) -> f64 {
        self.light.power(sum)
    }

    fn gaussian(&self, w0: f64, x: isize, y: isize) -> Complex64 {
        self.light.gaussian(w0, x, y)
    }

    fn retard(&self, u: Complex64, dn: f64, dz: f64) -> Complex64 {
        self.light.retard(u, dn, dz)
    }

    fn retard_and_decay(&self, u: Complex64, dn: f64, alpha: f64, dz: f64) -> Complex64 {
        self.light.retard_and_decay(u, dn, alpha, dz)
    }

    fn edge(&self, i: usize) -> f64 {
        self.light.edge(i)
    }

    fn mask(&self, u: Complex64, m: f64) -> Complex64 {
        self.light.mask(u, m)
    }

    fn absorb(&self, total: f64, before: f64, after: f64) -> f64 {
        self.light.absorb(total, before, after)
    }

    fn phase_jump(&self, a: f64, b: f64, dz: f64) -> f64 {
        self.light.phase_jump(a, b, dz)
    }

    fn is_aliased(&self, jump: f64) -> bool {
        self.light.is_aliased(jump)
    }

    fn is_interior(&self, i: usize) -> bool {
        self.light.is_interior(i)
    }

    fn has_power(&self, total: f64) -> bool {
        self.light.has_power(total)
    }

    fn is_contained(&self, inside: f64, total: f64) -> bool {
        self.light.is_contained(inside, total)
    }

    fn add_moment(&self, m: f64, p: f64, i: usize) -> f64 {
        self.light.add_moment(m, p, i)
    }

    fn add_spread(&self, v: f64, p: f64, i: usize, centre: f64) -> f64 {
        self.light.add_spread(v, p, i, centre)
    }

    fn width(&self, v: f64, total: f64) -> f64 {
        self.light.width(v, total)
    }

    fn is_resolved(&self, width: f64) -> bool {
        self.light.is_resolved(width)
    }
}

fn light(n: usize, dx: f64) -> Light {
    Light::new(n, dx, 1e-6)
}

fn beam(k: &Light, w0: f64) -> Field<f64, Complex64> {
    Field::gaussian(k, Grid::new(k, k.n, k.dx), k.wavelength, w0)
}

fn dim<T>(p: &Plane<T>) -> (usize, usize) {
    (p.height(), p.width())
}

// Grid.

#[test]
fn extent_is_n_times_dx() {
    let g = light(512, 1e-3);
    assert_eq!(g.extent(), 512.0 * 1e-3);
}

#[test]
fn origin_is_centred() {
    let g = Grid::new(&light(8, 0.25), 8, 0.25);
    assert_eq!(g.offset(4), 0);
    assert_eq!(g.offset(3) as f64 * g.dx, -0.25);
    assert_eq!(light(8, 0.25).coord(4), 0.0);
    assert_eq!(light(8, 0.25).coord(3), -0.25);
}

#[test]
fn rejects_zero_size() {
    assert_eq!(checked_grid(0, 1.0, true), Err(GridError::BadSize { n: 0 }));
}

#[test]
fn rejects_odd_size() {
    assert_eq!(checked_grid(65, 1.0, true), Err(GridError::BadSize { n: 65 }));
}

#[test]
fn rejects_nonpositive_spacing() {
    let k = light(8, 0.0);
    assert_eq!(checked_grid(8, 0.0, k.is_positive(0.0)), Err(GridError::BadSpacing));
    assert!(checked_grid(8, 1.0, k.is_positive(1.0)).is_ok());
}

#[test]
fn the_shift_swaps_halves_and_frequencies_wrap() {
    let g = Grid::new(&light(8, 1.0), 8, 1.0);
    assert_eq!((0..8).map(|i| g.shifted(i)).collect::<Vec<_>>(), vec![4, 5, 6, 7, 0, 1, 2, 3]);
    assert_eq!(
        (0..8).map(|i| g.frequency(i)).collect::<Vec<_>>(),
        vec![0, 1, 2, 3, 4, -3, -2, -1]
    );
}

// Field.

#[test]
fn intensity_scale_maps_field_power_to_beam_power() {
    let k = light(64, 1e-3);
    let f = beam(&k, 5e-3);
    let beam_power = 4.2e4;
    let scale = IntensityScale::from_beam_power(&k, beam_power, f.power(&k)).unwrap();
    let sum: f64 = f.physical_intensity(&k, scale).as_slice().iter().sum();
    let integrated = sum * k.dx * k.dx;
    assert!((integrated - beam_power).abs() / beam_power < 1e-12);
}

#[test]
fn intensity_scale_is_independent_of_field_units() {
    let k = light(64, 1e-3);
    let mut f = beam(&k, 5e-3);
    let a = IntensityScale::from_beam_power(&k, 1e4, f.power(&k)).unwrap();
    let peak_a = f.peak_physical_intensity(&k, a);

    let louder = f.u.map(|c: Complex64| c * 137.0);
    assert_eq!(f.set_u(louder), Ok(()));
    let b = IntensityScale::from_beam_power(&k, 1e4, f.power(&k)).unwrap();
    let peak_b = f.peak_physical_intensity(&k, b);
    assert!((peak_a - peak_b).abs() / peak_a < 1e-12);
}

#[test]
fn intensity_scale_refuses_degenerate_inputs() {
    let k = light(64, 1e-3);
    let f = beam(&k, 5e-3);
    for (beam, field_power) in [
        (0.0, f.power(&k)),
        (-1.0, f.power(&k)),
        (f64::INFINITY, f.power(&k)),
        (1e4, 0.0),
        (1e4, f64::NAN),
    ] {
        assert!(IntensityScale::from_beam_power(&k, beam, field_power).is_err());
    }
    assert_eq!(
        IntensityScale::from_beam_power(&k, 0.0, 0.0),
        Err(ScaleError::BadBeamPower)
    );
    assert_eq!(
        IntensityScale::from_beam_power(&k, 1.0, 0.0),
        Err(ScaleError::BadFieldPower)
    );
}

#[test]
fn gaussian_peaks_at_centre() {
    let k = light(64, 1e-3);
    let i = beam(&k, 5e-3).intensity(&k);
    let peak = *i.at(32, 32);
    assert!((peak - 1.0).abs() < 1e-12);
    let max = i.as_slice().iter().copied().fold(0.0, f64::max);
    assert_eq!(peak, max);
}

#[test]
fn power_is_positive_and_finite() {
    let k = light(64, 1e-3);
    let p = beam(&k, 5e-3).power(&k);
    assert!(p > 0.0 && p.is_finite());
}

#[test]
fn intensity_shape_matches_grid() {
    let k = light(64, 1e-3);
    assert_eq!(dim(&beam(&k, 5e-3).intensity(&k)), (64, 64));
}

#[test]
fn a_field_takes_only_an_amplitude_of_its_grid() {
    let k = light(64, 1e-3);
    let mut f = beam(&k, 5e-3);
    let small = Plane::filled(32, 64, Complex64::new(1.0, 0.0));
    assert_eq!(f.set_u(small), Err((32, 64)));
    assert_eq!(*f.intensity(&k).at(32, 32), 1.0);
}

// Media.

#[test]
fn vacuum_is_zero() {
    let k = light(16, 1e-3);
    let m = Vacuum::new(16);
    let dn = m.index_perturbation(&k, 3);
    assert_eq!(dim(&dn), (16, 16));
    assert!(dn.as_slice().iter().all(|&v| v == 0.0));
}

#[test]
fn constant_is_constant_across_slabs() {
    let k = light(8, 1e-3);
    let m = ConstantDeltaN::new(8, 1e-6);
    assert_eq!(m.index_perturbation(&k, 0), m.index_perturbation(&k, 99));
    assert!(m.index_perturbation(&k, 0).as_slice().iter().all(|&v| v == 1e-6));
}

#[test]
fn lossless_media_report_no_extinction() {
    let k = light(8, 1e-3);
    assert!(Vacuum::new(8).extinction(&k, 0).is_none());
    assert!(ConstantDeltaN::new(8, 1e-6).extinction(&k, 0).is_none());
    assert!(UniformExtinction::new(&k, 8, 0.0).extinction(&k, 0).is_none());
}

#[test]
fn uniform_extinction_is_uniform() {
    let k = light(8, 1e-3);
    let m = UniformExtinction::new(&k, 8, 2e-4);
    let a = m.extinction(&k, 5).unwrap();
    assert_eq!(dim(&a), (8, 8));
    assert!(a.as_slice().iter().all(|&v| v == 2e-4));
    assert!(m.index_perturbation(&k, 0).as_slice().iter().all(|&v| v == 0.0));
}

#[test]
fn kruse_reduces_to_koschmieder_at_550nm() {
    let k = light(8, 1e-3);
    for v in [1e3, 10e3, 80e3] {
        let alpha = kruse_extinction(&k, 550e-9, v);
        assert!((alpha - 3.912 / v).abs() < 1e-15 * alpha);
    }
}

#[test]
fn kruse_extinction_decreases_with_wavelength_and_visibility() {
    let k = light(8, 1e-3);
    let a_vis = kruse_extinction(&k, 550e-9, 10e3);
    let a_ir = kruse_extinction(&k, 1.55e-6, 10e3);
    assert!(a_ir < a_vis);
    assert!(kruse_extinction(&k, 1e-6, 50e3) < kruse_extinction(&k, 1e-6, 5e3));
}

#[test]
fn the_kruse_exponent_changes_at_six_and_fifty_kilometres() {
    let k = light(8, 1e-3);
    let q = |v: f64| -(kruse_extinction(&k, 1.1e-6, v) * v / 3.912).log2();
    assert!((q(60e3) - 1.6).abs() < 1e-12);
    assert!((q(50e3) - 1.3).abs() < 1e-12);
    assert!((q(7e3) - 1.3).abs() < 1e-12);
    assert!((q(6e3) - 0.585 * 6f64.cbrt()).abs() < 1e-12);
}

// Propagation.

#[test]
fn fft_roundtrip_is_identity() {
    let k = light(64, 1e-3);
    let field = beam(&k, 8e-3);
    let mut p = Propagator::new(k, 64).unwrap();
    let mut f = beam(&k, 8e-3);
    p.diffract(&mut f, 0.0).unwrap();
    let max_err = f
        .u
        .as_slice()
        .iter()
        .zip(field.u.as_slice())
        .map(|(a, b)| (a - b).norm())
        .fold(0.0, f64::max);
    assert!(max_err < 1e-12);
}

#[test]
fn boundary_mask_is_one_in_interior() {
    let k = light(128, 1e-3);
    assert_eq!(k.edge(64) * k.edge(64), 1.0);
    assert!(k.edge(0) * k.edge(64) < 1e-8);
}

#[test]
fn second_moment_width_matches_gaussian() {
    let k = light(256, 1e-3);
    let w0 = 2e-2;
    let (wx, wy) = beam_width(&k, &beam(&k, w0)).unwrap();
    assert!((wx - w0).abs() / w0 < 1e-6);
    assert!((wy - w0).abs() / w0 < 1e-6);
}

#[test]
fn check_field_rejects_uncontained_beam() {
    let k = light(64, 1e-3);
    let field = beam(&k, 40e-3);
    let p = Propagator::new(k, 64).unwrap();
    assert_eq!(p.check_field::<()>(&field), Err(PropagateError::NotContained));
}

#[test]
fn check_field_rejects_underresolved_beam() {
    let k = light(256, 1e-3);
    let field = beam(&k, 3e-3);
    let p = Propagator::new(k, 256).unwrap();
    assert_eq!(p.check_field::<()>(&field), Err(PropagateError::UnderResolved));
}

#[test]
fn method_selection_by_critical_distance() {
    let k = light(512, 1e-3);
    let p = Propagator::new(k, 512).unwrap();
    let zc = k.critical_distance();
    assert!((zc - 512.0).abs() < 1e-9);
    assert_eq!(p.method_for(zc * 0.5), DiffractionMethod::AngularSpectrum);
    assert_eq!(p.method_for(zc * 2.0), DiffractionMethod::FresnelImpulseResponse);
}

#[test]
fn a_run_is_refused_before_it_starts() {
    let k = light(64, 1e-3);
    assert!(matches!(
        Propagator::new(Light::new(64, 1e-3, 0.0), 64),
        Err(PropagateError::BadWavelength)
    ));
    let mut p = Propagator::new(k, 64).unwrap();
    let mut f = beam(&k, 5e-3);
    let launch = beam(&k, 5e-3);
    let seen = |i: usize, _f: &Field<f64, Complex64>| i;
    let vacuum = Vacuum::new(64);
    assert_eq!(
        p.propagate(&mut f, &vacuum, 0.0, 0, 3, seen),
        Err(PropagateError::BadStepLength)
    );
    let short = Screens { dz: 1.0, substeps: 1, screens: vec![Plane::filled(64, 64, 0.0)] };
    assert_eq!(
        p.propagate(&mut f, &short, 1.0, 0, 2, seen),
        Err(PropagateError::BeyondMedium { first_slab: 0, n_steps: 2, slabs: 1 })
    );
    let other = Light::new(64, 1e-3, 2e-6);
    let mut red = Field::gaussian(&other, Grid::new(&other, 64, 1e-3), 2e-6, 5e-3);
    assert_eq!(
        p.propagate(&mut red, &vacuum, 1.0, 0, 1, seen),
        Err(PropagateError::WavelengthMismatch)
    );
    let mut dark = beam(&k, 5e-3);
    assert_eq!(dark.set_u(Plane::filled(64, 64, Complex64::new(0.0, 0.0))), Ok(()));
    assert_eq!(
        p.propagate(&mut dark, &vacuum, 1.0, 0, 1, seen),
        Err(PropagateError::NoPower)
    );
    assert_eq!(centroid(&k, &dark), None);
    assert_eq!(beam_width(&k, &dark), None);
    assert_eq!(f.u, launch.u);
}

#[test]
fn a_lossless_run_keeps_its_power_and_calls_back_in_order() {
    let k = light(128, 1e-3);
    let mut p = Propagator::new(k, 128).unwrap();
    let mut f = beam(&k, 1e-2);
    let before = f.power(&k);
    let seen = p
        .propagate(&mut f, &ConstantDeltaN::new(128, 1e-7), 5.0, 2, 4, |i: usize, g: &Field<f64, Complex64>| {
            (i, g.power(&k))
        })
        .unwrap();
    assert_eq!(seen.iter().map(|s| s.0).collect::<Vec<_>>(), vec![2, 3, 4, 5]);
    assert!(seen.iter().all(|s| (s.1 / before - 1.0).abs() < 1e-12));
    assert!((f.power(&k) / before - 1.0).abs() < 1e-12);
    assert!(p.guard_absorbed().abs() / before < 1e-12);
}

#[test]
fn two_legs_are_one_run() {
    let k = light(64, 1e-3);
    let medium = UniformExtinction::new(&k, 64, 1e-3);
    let none = |_i: usize, _f: &Field<f64, Complex64>| true;
    let mut whole = beam(&k, 6e-3);
    Propagator::new(k, 64).unwrap().propagate(&mut whole, &medium, 2.0, 0, 5, none).unwrap();
    let mut legs = beam(&k, 6e-3);
    let mut p = Propagator::new(k, 64).unwrap();
    p.propagate(&mut legs, &medium, 2.0, 0, 2, none).unwrap();
    p.propagate(&mut legs, &medium, 2.0, 2, 3, none).unwrap();
    assert_eq!(whole.u, legs.u);
}

#[test]
fn without_an_edge_nothing_is_absorbed() {
    let k = light(64, 1e-3);
    let mut p = Propagator::new(k, 64).unwrap().without_boundary();
    let mut f = beam(&k, 6e-3);
    p.propagate(&mut f, &Vacuum::new(64), 20.0, 0, 10, |_i: usize, _f: &Field<f64, Complex64>| true)
        .unwrap();
    assert_eq!(p.guard_absorbed(), 0.0);
}

// Side view.

#[test]
fn xz_map_shape_is_x_by_z() {
    let k = light(16, 1e-3);
    let field = beam(&k, 5e-3);
    let mut xz: XzSliceMap<f64> = XzSliceMap::new();
    assert!(xz.is_empty());
    xz.record(&k, &field);
    xz.record(&k, &field);
    assert_eq!(xz.len(), 2);
    assert_eq!(dim(&xz.to_array()), (16, 2));
    assert_eq!(*xz.to_array().at(8, 1), 1.0);
}

// Apertures.

fn flat_with_phase(k: &Light, phase: impl Fn(f64, f64) -> f64) -> Field<f64, Complex64> {
    let u = Plane::from_fn(k.n, k.n, |j: usize, i: usize| {
        Complex64::from_polar(1.0, phase(k.coord(i), k.coord(j)))
    });
    Field { grid: Grid::new(k, k.n, k.dx), wavelength: 1e-6, u }
}

fn aperture(k: &Light, diameter: f64) -> Result<Aperture<f64>, ApertureError<f64>> {
    Aperture::new(k, Grid::new(k, k.n, k.dx), diameter)
}

#[test]
fn rejects_apertures_it_cannot_integrate() {
    let g = light(128, 1e-3);
    assert_eq!(aperture(&g, -1.0), Err(ApertureError::BadDiameter));
    assert_eq!(aperture(&g, f64::NAN), Err(ApertureError::BadDiameter));
    assert_eq!(aperture(&g, 2.0 * g.extent()), Err(ApertureError::TooWide));
    assert_eq!(aperture(&g, 4.0 * g.dx), Err(ApertureError::Undersampled { across: 4.0 }));
    let a = aperture(&g, 64.0 * g.dx).unwrap();
    assert!((a.samples_across(&g) - 64.0).abs() < 1e-12);
    let expect = PI * 32.0 * 32.0;
    assert!((a.sample_count(&g) as f64 / expect - 1.0).abs() < 0.01);
}

#[test]
fn flat_wavefront_is_unit_strehl_and_nothing_exceeds_it() {
    let g = light(128, 1e-3);
    let a = aperture(&g, 64.0 * g.dx).unwrap();
    let flat = flat_with_phase(&g, |_, _| 0.0);
    let s = a.phase_only_strehl(&g, &flat).unwrap();
    assert!((s - 1.0).abs() < 1e-12);
    let piston = flat_with_phase(&g, |_, _| 1.234);
    let s = a.phase_only_strehl(&g, &piston).unwrap();
    assert!((s - 1.0).abs() < 1e-12);
    for amp in [0.3, 3.0] {
        for cycles in [0.0, 0.5, 2.0, 7.0] {
            let f = flat_with_phase(&g, |x, _| amp * (2.0 * PI * cycles * x / (64.0 * g.dx)));
            let s = a.phase_only_strehl(&g, &f).unwrap();
            assert!((0.0..=1.0 + 1e-12).contains(&s));
        }
    }
}

#[test]
fn pure_tilt_moves_the_spot_without_dimming_it() {
    let g = light(128, 1e-3);
    let a = aperture(&g, 64.0 * g.dx).unwrap();
    let lambda = 1e-6;
    let k = 2.0 * PI / lambda;
    let theta = 3e-6;
    let phase = Plane::from_fn(g.n, g.n, |_j: usize, i: usize| k * theta * g.coord(i));
    let (tx, ty) = a.mean_tilt(&g, &phase, lambda).unwrap();
    assert!((tx - theta).abs() < 1e-15);
    assert!(ty.abs() < 1e-15);
    let (wx, wy) = a.focal_wander(&g, &phase, lambda, 10.0).unwrap();
    assert!((wx - 3e-5).abs() < 1e-12);
    assert!(wy.abs() < 1e-12);
    let v = a.residual_phase_variance(&g, &phase, TiltRemoval::PistonTipTilt).unwrap();
    assert!(v < 1e-18);
    let v0 = a.residual_phase_variance(&g, &phase, TiltRemoval::PistonOnly).unwrap();
    assert!(v0 > 1e-3);
}

#[test]
fn strehl_approaches_marechal_in_the_weak_limit() {
    let g = light(128, 1e-3);
    let a = aperture(&g, 64.0 * g.dx).unwrap();
    let d = a.diameter();
    let mut residuals = Vec::new();
    for amp in [0.8_f64, 0.4, 0.2, 0.1] {
        let shape = |x: f64, y: f64| (x * x + y * y) / (0.25 * d * d);
        let f = flat_with_phase(&g, |x, y| amp * shape(x, y));
        let phase =
            Plane::from_fn(g.n, g.n, |j: usize, i: usize| amp * shape(g.coord(i), g.coord(j)));
        let s = a.phase_only_strehl(&g, &f).unwrap();
        let var = a.residual_phase_variance(&g, &phase, TiltRemoval::PistonOnly).unwrap();
        residuals.push((s - (-var).exp()).abs());
    }
    for w in residuals.windows(2) {
        assert!(w[1] < w[0]);
    }
    assert!(*residuals.last().unwrap() < 1e-3);
}

#[test]
fn scintillation_is_not_counted_as_wavefront_error() {
    let g = light(128, 1e-3);
    let a = aperture(&g, 64.0 * g.dx).unwrap();
    let flat = flat_with_phase(&g, |_, _| 0.0);
    let speckled = Field {
        grid: Grid::new(&g, g.n, g.dx),
        wavelength: 1e-6,
        u: Plane::from_fn(g.n, g.n, |j: usize, i: usize| {
            let (x, y) = (g.coord(i), g.coord(j));
            Complex64::new(0.5 + 0.5 * (x / g.dx * 0.7).sin() * (y / g.dx * 0.7).cos(), 0.0)
        }),
    };
    let s = a.phase_only_strehl(&g, &speckled).unwrap();
    assert!((s - 1.0).abs() < 1e-9);
    let ratio = a.focal_intensity_ratio(&g, &speckled, &flat).unwrap();
    assert!(ratio < 0.9);
}

#[test]
fn field_tilt_survives_phase_wrapping_where_a_plane_fit_does_not() {
    let g = light(256, 5e-4);
    let a = aperture(&g, 128.0 * g.dx).unwrap();
    let lambda = 1e-6;
    let k = 2.0 * PI / lambda;
    for theta in [1e-7_f64, 1e-6, 1e-5] {
        let f = flat_with_phase(&g, |x, _| k * theta * x);
        let (tx, ty) = a.mean_tilt_of_field(&g, &f, lambda).unwrap();
        assert!((tx / theta - 1.0).abs() < 5e-4);
        assert!(ty.abs() < 1e-9 * theta);
    }
    let theta = 1e-5_f64;
    let err_at = |n: usize, dx: f64| {
        let gg = light(n, dx);
        let aa = aperture(&gg, 0.064).unwrap();
        let ff = flat_with_phase(&gg, |x, _| k * theta * x);
        let (t, _) = aa.mean_tilt_of_field(&gg, &ff, lambda).unwrap();
        (t / theta - 1.0).abs()
    };
    let coarse = err_at(256, 5e-4);
    let fine = err_at(512, 2.5e-4);
    let predicted = (k * theta * 5e-4_f64).powi(2) / 6.0;
    assert!((coarse / predicted - 1.0).abs() < 0.05);
    assert!((coarse / fine / 4.0 - 1.0).abs() < 0.05);

    let theta = 5.0 * lambda / a.diameter();
    let f = flat_with_phase(&g, |x, _| k * theta * x);
    let (tx, _) = a.mean_tilt_of_field(&g, &f, lambda).unwrap();
    assert!((tx / theta - 1.0).abs() < 0.02);
    let wrapped = f.u.map(|c: Complex64| c.arg());
    let (wx, _) = a.mean_tilt(&g, &wrapped, lambda).unwrap();
    assert!((wx / theta - 1.0).abs() > 0.5);
    let (wx, _) = a.focal_wander_of_field(&g, &f, lambda, 10.0).unwrap();
    assert!((wx / (10.0 * theta) - 1.0).abs() < 0.02);
}

#[test]
fn degenerate_inputs_are_refused() {
    let g = light(128, 1e-3);
    let a = aperture(&g, 64.0 * g.dx).unwrap();
    let dark = Field {
        grid: Grid::new(&g, g.n, g.dx),
        wavelength: 1e-6,
        u: Plane::filled(g.n, g.n, Complex64::new(0.0, 0.0)),
    };
    assert_eq!(a.phase_only_strehl(&g, &dark), Err(ApertureError::NoPower));
    let flat = flat_with_phase(&g, |_, _| 0.0);
    assert_eq!(
        a.focal_intensity_ratio(&g, &flat, &dark),
        Err(ApertureError::NoReferencePower)
    );
    let wrong = Plane::filled(g.n / 2, g.n / 2, 0.0);
    assert_eq!(
        a.residual_phase_variance(&g, &wrong, TiltRemoval::PistonOnly),
        Err(ApertureError::PhaseShape)
    );
    assert_eq!(
        a.mean_tilt(&g, &Plane::filled(g.n, g.n, 0.0), -1.0),
        Err(ApertureError::BadWavelength)
    );
    assert_eq!(a.mean_tilt_of_field(&g, &dark, 1e-6), Err(ApertureError::NoPower));
    assert_eq!(a.mean_tilt_of_field(&g, &flat, -1.0), Err(ApertureError::BadWavelength));
    assert_eq!(
        a.focal_wander_of_field(&g, &flat, 1e-6, 0.0),
        Err(ApertureError::BadFocalLength)
    );
    let small = light(64, 1e-3);
    let other = flat_with_phase(&small, |_, _| 0.0);
    assert_eq!(a.mean_tilt_of_field(&g, &other, 1e-6), Err(ApertureError::GridMismatch));
}

#[test]
fn the_box_walk_visits_the_disc_row_by_row() {
    let g = light(64, 1e-3);
    let a = aperture(&g, 17.0 * g.dx).unwrap();
    let mut all = Vec::new();
    for j in 0..64usize {
        for i in 0..64usize {
            let (x, y) = (i as isize - 32, j as isize - 32);
            if ((x * x + y * y) as f64) <= 0.25 * 17.0 * 17.0 {
                all.push((j, i));
            }
        }
    }
    assert_eq!(a.samples(&g), all);
}

// Blooming.

fn standard_air() -> AirProperties<f64> {
    AirProperties { rho: 1.225, cp: 1006.0, kappa_t: 0.0253, n_minus_1: 2.74e-4 }
}

fn bloom(
    k: &Light,
    alpha: f64,
    wind: f64,
    power: f64,
    field_power: f64,
) -> Result<ThermalBlooming<f64>, BloomingError<f64>> {
    ThermalBlooming::new(
        k,
        Grid::new(k, k.n, k.dx),
        standard_air(),
        alpha,
        wind,
        power,
        field_power,
        1e-2,
        288.15,
    )
}

#[test]
fn rejects_stagnant_air() {
    let k = light(64, 1e-3);
    let field = beam(&k, 1e-2);
    let Err(BloomingError::NotConvective { peclet }) =
        bloom(&k, 1e-4, 1e-3, 1e4, field.power(&k))
    else {
        panic!("convective");
    };
    assert!(peclet < 100.0);
    assert_eq!(bloom(&k, 1e-4, 0.0, 1e4, 1.0), Err(BloomingError::BadWind));
    assert_eq!(bloom(&k, 1e-4, 2.0, 0.0, 1.0), Err(BloomingError::BadBeamPower));
    assert_eq!(bloom(&k, 1e-4, 2.0, 1e4, 0.0), Err(BloomingError::NoFieldPower));
    assert_eq!(bloom(&k, -1.0, 2.0, 1e4, 1.0), Err(BloomingError::BadAbsorption));
}

#[test]
fn index_is_negative_and_grows_downwind() {
    let k = light(128, 1e-3);
    let field = beam(&k, 1e-2);
    let medium = bloom(&k, 1e-4, 2.0, 1e4, field.power(&k)).unwrap();
    let dn = medium.index_response(&k, 0, &field.intensity(&k), 0.0).unwrap();
    let mid = 64;
    assert!(dn.as_slice().iter().all(|&v| v <= 0.0));
    assert!(*dn.at(mid, 127) < *dn.at(mid, 0));
    assert!(*dn.at(mid, 127) < *dn.at(mid, mid));
    assert_eq!(*dn.at(mid, 0), 0.0);
}

#[test]
fn a_beam_that_is_too_hot_is_refused() {
    let k = light(128, 1e-3);
    let field = beam(&k, 1e-2);
    let medium = bloom(&k, 1e-1, 2.0, 1e8, field.power(&k)).unwrap();
    assert_eq!(
        medium.index_response(&k, 0, &field.intensity(&k), 1.0),
        Err(BloomingRefusal::TooHot)
    );
}

// Runs.

#[test]
fn snapshots_are_spaced_and_the_middle_is_kept() {
    assert_eq!(frame_every(200, 5), 40);
    assert_eq!(frame_every(3, 10), 1);
    assert_eq!(frame_every(7, 0), 7);
    assert_eq!(substeps(10), 24);
    assert_eq!(substeps(1000), 1);
    let p = Plane::from_fn(8, 2, |j: usize, i: usize| 10 * j + i);
    assert_eq!(crop_middle_x(&p), Plane::from_fn(4, 2, |j: usize, i: usize| 10 * (j + 2) + i));
    let maps = vec![Plane::filled(2, 3, 1), Plane::filled(2, 3, 2)];
    assert_eq!(stack(&maps, 2, 3), Plane::from_fn(2, 6, |m: usize, _l: usize| m + 1));
}

#[test]
fn propagate_run_shapes_and_transmission() {
    let k = light(256, 1e-3);
    let r = run_propagate(
        &k,
        &PropagateParams {
            n: 256,
            dx: 1e-3,
            wavelength: 1e-6,
            w0: 5e-3,
            z: Some(50.0),
            steps: 10,
            frames: 2,
            alpha: Some(1e-3),
            visibility: None,
        },
    )
    .unwrap();
    assert_eq!(dim(&r.record.final_intensity), (256, 256));
    assert_eq!(r.record.side.height(), 128);
    assert_eq!(r.record.snapshots.len(), r.snapshot_z.len());
    assert_eq!(r.snapshot_z, vec![0.0, 25.0, 50.0]);
    let t_ref = (-1e-3 * 50.0_f64).exp();
    assert!((r.record.transmission - t_ref).abs() / t_ref < 1e-10);
}

#[test]
fn a_transform_that_loses_samples_is_refused() {
    let light = light(64, 1e-3);
    let start = beam(&light, 5e-3);
    for dz in [1.0, 4.0 * light.critical_distance()] {
        for (keeps_forward, keeps_inverse) in [(true, true), (false, true), (true, false)] {
            let keeps = keeps_forward && keeps_inverse;
            let mut p = Propagator::new(Cropping { light, keeps_forward, keeps_inverse }, 64).unwrap();
            let refusal = if keeps { None } else { Some(PropagateError::TransformShape) };

            let mut f = beam(&light, 5e-3);
            assert_eq!(p.diffract(&mut f, dz).err(), refusal);
            assert_eq!(f.u.as_slice() == start.u.as_slice(), !keeps);

            let mut f = beam(&light, 5e-3);
            let stepped = p.step(&mut f, &Vacuum::new(64), 0, dz);
            assert_eq!(stepped.is_ok(), keeps);
            assert!(matches!(stepped, Ok(()) | Err(PropagateError::TransformShape)));
        }
    }
}

#[test]
fn a_run_refuses_an_extinction_that_is_none() {
    let k = light(256, 1e-3);
    let refused = |alpha: f64| {
        run_propagate(
            &k,
            &PropagateParams {
                n: 256,
                dx: 1e-3,
                wavelength: 1e-6,
                w0: 5e-3,
                z: Some(50.0),
                steps: 2,
                frames: 1,
                alpha: Some(alpha),
                visibility: None,
            },
        )
        .err()
    };
    for bad in [-1e-3, f64::NAN, f64::INFINITY] {
        assert_eq!(refused(bad), Some(PropagateError::BadExtinction));
        assert!(!is_extinction(&k, bad));
    }
    for good in [0.0, 1e-3] {
        assert_eq!(refused(good), None);
        assert!(is_extinction(&k, good));
    }
}

#[test]
fn turbulence_run_is_seed_deterministic() {
    let k = light(256, 2e-3);
    let p = TurbulenceParams {
        n: 256,
        dx: 2e-3,
        wavelength: 1e-6,
        w0: 1e-2,
        z: 500.0,
        screens: 3,
        cn2: 1e-14,
        l0: 1e3,
        realizations: 2,
        seed: 42,
    };
    let a = run_turbulence(&k, &p).unwrap();
    let b = run_turbulence(&k, &p).unwrap();
    assert_eq!(a.frames, b.frames);
    assert_eq!(a.longexp, b.longexp);
    let c = run_turbulence(&k, &TurbulenceParams { seed: 43, ..p }).unwrap();
    assert_ne!(a.frames, c.frames);
}

#[test]
fn the_long_exposure_is_the_mean_of_the_members() {
    let k = light(64, 2e-3);
    let p = TurbulenceParams {
        n: 64,
        dx: 2e-3,
        wavelength: 1e-6,
        w0: 1e-2,
        z: 10.0,
        screens: 300,
        cn2: 1e-14,
        l0: 1e3,
        realizations: 3,
        seed: 7,
    };
    let r = run_turbulence(&k, &TurbulenceParams { screens: 240, ..p }).unwrap();
    assert_eq!(r.substeps, 1);
    assert_eq!(r.frames.len(), 3);
    let mean = (0..3).fold(0.0, |s, m| s + *r.frames[m].at(32, 32)) / 3.0;
    assert_eq!(*r.longexp.at(32, 32), mean);
    assert_eq!(dim(&r.xz_frames[0]), (32, 241));
}

#[test]
fn the_first_failure_of_an_ensemble_is_reported() {
    let k = light(64, 1e-3);
    let p = TurbulenceParams {
        n: 64,
        dx: 1e-3,
        wavelength: 1e-6,
        w0: 4e-2,
        z: 10.0,
        screens: 2,
        cn2: 1e-14,
        l0: 1e3,
        realizations: 3,
        seed: 7,
    };
    assert_eq!(
        run_turbulence(&k, &p).err(),
        Some(PathError::Propagate(PropagateError::NotContained))
    );
}

#[test]
fn an_extinction_of_zero_is_vacuum_bit_for_bit() {
    let k = light(64, 1e-3);
    let none = |_i: usize, _f: &Field<f64, Complex64>| true;
    let mut through_air = beam(&k, 8e-3);
    let clear = UniformExtinction::new(&k, 64, 0.0);
    let mut air = Propagator::new(k, 64).unwrap();
    air.propagate(&mut through_air, &clear, 40.0, 0, 10, none).unwrap();
    let mut through_vacuum = beam(&k, 8e-3);
    let mut vacuum = Propagator::new(k, 64).unwrap();
    vacuum.propagate(&mut through_vacuum, &Vacuum::new(64), 40.0, 0, 10, none).unwrap();
    assert_eq!(through_air.u, through_vacuum.u);
    assert!(vacuum.guard_absorbed() > 0.0);
    assert_eq!(air.guard_absorbed(), vacuum.guard_absorbed());
}

#[test]
fn the_edge_books_what_the_beam_loses() {
    let k = light(64, 1e-3);
    let mut f = beam(&k, 8e-3);
    let before = f.power(&k);
    let mut p = Propagator::new(k, 64).unwrap();
    p.propagate(&mut f, &Vacuum::new(64), 40.0, 0, 10, |_i: usize, _f: &Field<f64, Complex64>| true)
        .unwrap();
    let lost = before - f.power(&k);
    assert!(lost > 1e-6 * before, "nothing reached the edge: {lost:e} of {before:e}");
    assert!((lost - p.guard_absorbed()).abs() < 1e-12 * before);
}

#[test]
fn no_plane_fits_better() {
    let k = light(64, 1e-3);
    let a = aperture(&k, 40.0 * k.dx).unwrap();
    let bumpy = |x: f64, y: f64| 1.0 + 30.0 * x - 20.0 * y + (700.0 * x * y).sin() + 900.0 * x * x;
    let at = |tip: f64, tilt: f64| {
        Plane::from_fn(64, 64, |j: usize, i: usize| {
            let (x, y) = (k.coord(i), k.coord(j));
            bumpy(x, y) - tip * x - tilt * y
        })
    };
    let best = a
        .residual_phase_variance(&k, &at(0.0, 0.0), TiltRemoval::PistonTipTilt)
        .unwrap();
    assert!(best > 0.0);
    for m in -6..=6 {
        for n in -6..=6 {
            let (tip, tilt) = (10.0 * m as f64, 10.0 * n as f64);
            let v = a
                .residual_phase_variance(&k, &at(tip, tilt), TiltRemoval::PistonOnly)
                .unwrap();
            assert!(best <= v * (1.0 + 1e-12), "a tilt of ({tip}, {tilt}) fits better: {v} against {best}");
        }
    }
}

#[test]
fn no_constant_fits_better_than_the_mean() {
    let k = light(64, 1e-3);
    let a = aperture(&k, 40.0 * k.dx).unwrap();
    let bumpy = Plane::from_fn(64, 64, |j: usize, i: usize| {
        let (x, y) = (k.coord(i), k.coord(j));
        1.0 + 30.0 * x - 20.0 * y + (700.0 * x * y).sin() + 900.0 * x * x
    });
    let best = a.residual_phase_variance(&k, &bumpy, TiltRemoval::PistonOnly).unwrap();
    let samples = a.samples(&k);
    let about = |c: f64| {
        samples.iter().map(|&(j, i)| (bumpy.at(j, i) - c).powi(2)).sum::<f64>() / samples.len() as f64
    };
    for m in -40..=40 {
        let c = 0.1 * m as f64;
        assert!(best <= about(c) * (1.0 + 1e-12), "{c} fits better than the mean");
    }
}

#[test]
fn a_complex_factor_leaves_the_phase_only_strehl_ratio_as_it_is() {
    let g = light(128, 1e-3);
    let a = aperture(&g, 64.0 * g.dx).unwrap();
    let bent = flat_with_phase(&g, |x, y| 300.0 * x * x - 40.0 * y);
    let s = a.phase_only_strehl(&g, &bent).unwrap();
    assert!(s < 0.99);
    for factor in [Complex64::new(0.6, 0.8), Complex64::new(-3.0, 4.0), Complex64::new(0.0, 1e-6)] {
        let u = Plane::from_fn(g.n, g.n, |j: usize, i: usize| *bent.u.at(j, i) * factor);
        let scaled = Field { u, ..flat_with_phase(&g, |_, _| 0.0) };
        let t = a.phase_only_strehl(&g, &scaled).unwrap();
        assert!((t - s).abs() < 1e-12, "{t} against {s}");
    }
}

#[test]
fn a_uniform_extinction_takes_one_factor_per_slab() {
    let k = light(64, 1e-3);
    let (alpha, dz) = (2e-2, 5.0);
    let haze = UniformExtinction::new(&k, 64, alpha);
    let mut f = beam(&k, 8e-3);
    let launched = f.power(&k);
    let mut p = Propagator::new(k, 64).unwrap().without_boundary();
    for slab in 0..10 {
        p.step(&mut f, &haze, slab, dz).unwrap();
        let expected = (-alpha * dz).exp().powi(slab as i32 + 1);
        let left = f.power(&k) / launched;
        assert!((left / expected - 1.0).abs() < 1e-12, "{left} after slab {slab}");
    }
    assert_eq!(p.guard_absorbed(), 0.0);
}

#[test]
fn a_turbulent_ensemble_comes_out_the_same_each_time() {
    let k = light(64, 1e-3);
    let p = TurbulenceParams {
        n: 64,
        dx: 1e-3,
        wavelength: 1e-6,
        w0: 8e-3,
        z: 40.0,
        screens: 2,
        cn2: 1e-13,
        l0: 1e3,
        realizations: 3,
        seed: 7,
    };
    let (a, b) = (run_turbulence(&k, &p).unwrap(), run_turbulence(&k, &p).unwrap());
    assert_eq!(a.frames, b.frames);
    assert_eq!(a.xz_frames, b.xz_frames);
    assert_eq!(a.longexp, b.longexp);
    assert_eq!(a.guard_frac_mean, b.guard_frac_mean);
    let other = run_turbulence(&k, &TurbulenceParams { seed: 8, ..p }).unwrap();
    assert_ne!(a.frames[0], other.frames[0]);
}

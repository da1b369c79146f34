use beamprop::euler1d::Conserved;
use beamprop::riemann::Acoustics;
use beamprop::validate::{RiemannError, RiemannProblem, StarState, Waves};

/// Density, velocity and pressure.
type Primitive = beamprop::euler1d::Primitive<f64>;

/// A calorically perfect gas.
#[derive(Debug, Clone, Copy, PartialEq)]
struct IdealGas {
    gamma: f64,
}

impl IdealGas {
    const AIR: Self = Self { gamma: 1.4 };

    fn speed_of_sound(&self, rho: f64, p: f64) -> f64 {
        (self.gamma * p / rho).sqrt()
    }

    fn specific_internal_energy(&self, rho: f64, p: f64) -> f64 {
        p / ((self.gamma - 1.0) * rho)
    }

    fn to_conserved(&self, w: Primitive) -> Conserved<f64> {
        Conserved {
            rho: w.rho,
            mom: w.rho * w.u,
            energy: w.p / (self.gamma - 1.0) + 0.5 * w.rho * w.u * w.u,
        }
    }

    fn to_primitive(&self, u: Conserved<f64>) -> Primitive {
        let v = u.mom / u.rho;
        Primitive {
            rho: u.rho,
            u: v,
            p: (self.gamma - 1.0) * (u.energy - 0.5 * u.mom * v),
        }
    }
}

/// A positive, finite number; not a number is neither.
fn positive(x: f64) -> bool {
    x > 0.0 && x.is_finite()
}

impl Acoustics for IdealGas {
    type Real = f64;

    fn zero(&self) -> f64 {
        0.0
    }

    fn plus(&self, a: f64, b: f64) -> f64 {
        a + b
    }

    fn minus(&self, a: f64, b: f64) -> f64 {
        a - b
    }

    fn times(&self, a: f64, b: f64) -> f64 {
        a * b
    }

    fn half(&self, x: f64) -> f64 {
        0.5 * x
    }

    fn smaller(&self, a: f64, b: f64) -> f64 {
        a.min(b)
    }

    fn larger(&self, a: f64, b: f64) -> f64 {
        a.max(b)
    }

    fn root(&self, x: f64) -> f64 {
        x.sqrt()
    }

    fn opposes(&self, a: f64, b: f64) -> bool {
        a * b <= 0.0
    }

    fn is_flatter(&self, a: f64, b: f64) -> bool {
        a.abs() < b.abs()
    }

    fn exceeds_zero(&self, x: f64) -> bool {
        x > 0.0
    }

    fn is_forward(&self, x: f64) -> bool {
        x >= 0.0
    }

    fn is_backward(&self, x: f64) -> bool {
        x <= 0.0
    }

    fn flux(&self, u: Conserved<f64>) -> Conserved<f64> {
        let w = self.to_primitive(u);
        Conserved {
            rho: u.mom,
            mom: u.mom * w.u + w.p,
            energy: (u.energy + w.p) * w.u,
        }
    }

    fn velocity(&self, u: Conserved<f64>) -> f64 {
        self.to_primitive(u).u
    }

    fn sound_speed(&self, u: Conserved<f64>) -> f64 {
        let w = self.to_primitive(u);
        self.speed_of_sound(w.rho, w.p)
    }

    fn pressure(&self, u: Conserved<f64>) -> f64 {
        self.to_primitive(u).p
    }

    fn roe(&self, left: Conserved<f64>, right: Conserved<f64>) -> (f64, f64) {
        let (wl, wr) = (self.to_primitive(left), self.to_primitive(right));
        let (sl, sr) = (wl.rho.sqrt(), wr.rho.sqrt());
        let u = (sl * wl.u + sr * wr.u) / (sl + sr);
        let hl = (left.energy + wl.p) / wl.rho;
        let hr = (right.energy + wr.p) / wr.rho;
        let h = (sl * hl + sr * hr) / (sl + sr);
        (u, (self.gamma - 1.0) * (h - 0.5 * u * u))
    }

    fn contact(&self, left: Conserved<f64>, right: Conserved<f64>, s_left: f64, s_right: f64) -> f64 {
        let (wl, wr) = (self.to_primitive(left), self.to_primitive(right));
        let ml = wl.rho * (s_left - wl.u);
        let mr = wr.rho * (s_right - wr.u);
        (wr.p - wl.p + ml * wl.u - mr * wr.u) / (ml - mr)
    }

    fn star(&self, u: Conserved<f64>, s: f64, s_star: f64) -> Conserved<f64> {
        let w = self.to_primitive(u);
        let coef = w.rho * (s - w.u) / (s - s_star);
        Conserved {
            rho: coef,
            mom: coef * s_star,
            energy: coef
                * (u.energy / w.rho + (s_star - w.u) * (s_star + w.p / (w.rho * (s - w.u)))),
        }
    }
}

impl Waves for IdealGas {
    type Real = f64;

    fn sound_speed(&self, side: Primitive) -> f64 {
        self.speed_of_sound(side.rho, side.p)
    }

    fn generates_vacuum(&self, left: Primitive, right: Primitive, cl: f64, cr: f64) -> bool {
        2.0 * (cl + cr) / (self.gamma - 1.0) <= right.u - left.u
    }

    fn first_guess(&self, left: Primitive, right: Primitive, cl: f64, cr: f64) -> f64 {
        let g = self.gamma;
        let exp = 0.5 * (g - 1.0) / g;
        let num = cl + cr - 0.5 * (g - 1.0) * (right.u - left.u);
        let den = cl / left.p.powf(exp) + cr / right.p.powf(exp);
        (num / den).powf(1.0 / exp).max(1e-12 * left.p.min(right.p))
    }

    fn is_shock(&self, p: f64, side: Primitive) -> bool {
        p > side.p
    }

    fn shock(&self, p: f64, side: Primitive) -> (f64, f64) {
        let g = self.gamma;
        let a = 2.0 / ((g + 1.0) * side.rho);
        let b = (g - 1.0) / (g + 1.0) * side.p;
        let root = (a / (b + p)).sqrt();
        (
            (p - side.p) * root,
            root * (1.0 - 0.5 * (p - side.p) / (b + p)),
        )
    }

    fn rarefaction(&self, p: f64, side: Primitive) -> (f64, f64) {
        let g = self.gamma;
        let c = self.speed_of_sound(side.rho, side.p);
        let ratio = p / side.p;
        (
            2.0 * c / (g - 1.0) * (ratio.powf(0.5 * (g - 1.0) / g) - 1.0),
            ratio.powf(-0.5 * (g + 1.0) / g) / (side.rho * c),
        )
    }

    fn newton(
        &self,
        p: f64,
        fl: (f64, f64),
        fr: (f64, f64),
        left: Primitive,
        right: Primitive,
    ) -> f64 {
        let step = (fl.0 + fr.0 + (right.u - left.u)) / (fl.1 + fr.1);
        (p - step).max(1e-12 * p)
    }

    fn is_converged(&self, next: f64, p: f64) -> bool {
        2.0 * (next - p).abs() / (next + p) < 1e-14
    }

    fn star_velocity(&self, left: Primitive, right: Primitive, fl: f64, fr: f64) -> f64 {
        0.5 * (left.u + right.u) + 0.5 * (fr - fl)
    }

    fn negate(&self, x: f64) -> f64 {
        -x
    }

    fn is_at_most(&self, a: f64, b: f64) -> bool {
        a <= b
    }

    fn ratio(&self, a: f64, b: f64) -> f64 {
        a / b
    }

    fn compression(&self, p: f64, side: Primitive) -> f64 {
        p / side.p
    }

    fn is_compressive(&self, compression: f64) -> bool {
        compression > 1.0
    }

    fn shock_speed(&self, side: Primitive, compression: f64) -> f64 {
        let g = self.gamma;
        let c = self.speed_of_sound(side.rho, side.p);
        side.u - c * (0.5 * (g + 1.0) / g * compression + 0.5 * (g - 1.0) / g).sqrt()
    }

    fn shocked_density(&self, side: Primitive, compression: f64) -> f64 {
        let m = (self.gamma - 1.0) / (self.gamma + 1.0);
        side.rho * (compression + m) / (m * compression + 1.0)
    }

    fn head_speed(&self, side: Primitive) -> f64 {
        side.u - self.speed_of_sound(side.rho, side.p)
    }

    fn tail_speed(&self, side: Primitive, u: f64, compression: f64) -> f64 {
        let g = self.gamma;
        u - self.speed_of_sound(side.rho, side.p) * compression.powf(0.5 * (g - 1.0) / g)
    }

    fn expanded_density(&self, side: Primitive, compression: f64) -> f64 {
        side.rho * compression.powf(1.0 / self.gamma)
    }

    fn fan(&self, side: Primitive, speed: f64) -> Primitive {
        let g = self.gamma;
        let c = self.speed_of_sound(side.rho, side.p);
        let f = 2.0 / (g + 1.0) + (g - 1.0) / ((g + 1.0) * c) * (side.u - speed);
        Primitive {
            rho: side.rho * f.powf(2.0 / (g - 1.0)),
            u: 2.0 / (g + 1.0) * (c + 0.5 * (g - 1.0) * side.u + speed),
            p: side.p * f.powf(2.0 * g / (g - 1.0)),
        }
    }
}

fn sod() -> RiemannProblem<IdealGas> {
    RiemannProblem {
        left: Primitive {
            rho: 1.0,
            u: 0.0,
            p: 1.0,
        },
        right: Primitive {
            rho: 0.125,
            u: 0.0,
            p: 0.1,
        },
        gas: IdealGas { gamma: 1.4 },
    }
}

#[test]
fn sod_star_state_matches_published_values() {
    let star = sod().star_state().unwrap();
    assert!((star.p - 0.30313).abs() < 1e-5, "p* = {}", star.p);
    assert!((star.u - 0.92745).abs() < 1e-5, "u* = {}", star.u);
}

#[test]
fn riemann_solution_is_mirror_symmetric() {
    let p = sod();
    let mirrored = RiemannProblem {
        left: Primitive {
            u: -p.right.u,
            ..p.right
        },
        right: Primitive {
            u: -p.left.u,
            ..p.left
        },
        gas: p.gas,
    };
    for i in 0..21 {
        let s = -2.0 + 0.2 * i as f64;
        let a = p.state_at(s, 1.0).unwrap();
        let b = mirrored.state_at(-s, 1.0).unwrap();
        assert!((a.rho - b.rho).abs() < 1e-12, "density asymmetric at x/t = {s}");
        assert!((a.u + b.u).abs() < 1e-12, "velocity asymmetric at x/t = {s}");
        assert!((a.p - b.p).abs() < 1e-12, "pressure asymmetric at x/t = {s}");
    }
}

#[test]
fn riemann_far_field_recovers_the_initial_states() {
    let p = sod();
    let far_left = p.state_at(-100.0, 1.0).unwrap();
    let far_right = p.state_at(100.0, 1.0).unwrap();
    assert!((far_left.rho - p.left.rho).abs() < 1e-14);
    assert!((far_left.p - p.left.p).abs() < 1e-14);
    assert!((far_right.rho - p.right.rho).abs() < 1e-14);
    assert!((far_right.p - p.right.p).abs() < 1e-14);
}

#[test]
fn riemann_refuses_vacuum_generating_data() {
    let p = RiemannProblem {
        left: Primitive {
            rho: 1.0,
            u: -20.0,
            p: 0.4,
        },
        right: Primitive {
            rho: 1.0,
            u: 20.0,
            p: 0.4,
        },
        gas: IdealGas { gamma: 1.4 },
    };
    assert_eq!(p.star_state(), Err(RiemannError::Vacuum));
    assert_eq!(p.state_at(0.0, 1.0), Err(RiemannError::Vacuum));
}

#[test]
fn a_solution_that_is_not_a_number_does_not_converge() {
    let p = RiemannProblem {
        left: Primitive { rho: 1.0, u: 0.0, p: f64::NAN },
        ..sod()
    };
    assert_eq!(p.star_state(), Err(RiemannError::NotConverged));
}

#[test]
fn the_solution_depends_on_the_ray_alone() {
    let p = sod();
    let star: StarState<f64> = p.star_state().unwrap();
    for (x, t) in [(-0.3, 0.2), (0.1, 0.25), (0.5, 0.25), (-2.0, 0.5)] {
        assert_eq!(p.state_at(x, t), p.state_at(2.0 * x, 2.0 * t));
        assert_eq!(p.state_at(x, t).unwrap(), p.sample(star, x / t));
    }
    // Across the contact the pressure and the velocity are those of the star.
    let (a, b) = (p.sample(star, star.u - 1e-9), p.sample(star, star.u + 1e-9));
    assert_eq!((a.p, a.u), (star.p, star.u));
    assert_eq!((b.p, b.u), (star.p, star.u));
    assert!(a.rho > b.rho);
}

#[test]
fn equal_sides_have_no_waves() {
    let w = Primitive { rho: 1.2, u: 3.0, p: 5.0 };
    let p = RiemannProblem { left: w, right: w, gas: IdealGas { gamma: 1.4 } };
    let star = p.star_state().unwrap();
    assert!((star.p - 5.0).abs() < 1e-12);
    assert!((star.u - 3.0).abs() < 1e-12);
    let c = p.gas.speed_of_sound(w.rho, w.p);
    assert!((p.sample(star, 3.0 - 2.0 * c).rho - 1.2).abs() < 1e-12);
}

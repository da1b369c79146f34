//! Integrals over a circular pupil: coherent and incoherent sums, the residual
//! phase after low-order terms are projected out, and the mean tilt.
//!
//! A pupil is usually a small part of its grid, so it is walked within its
//! bounding box. The arithmetic of a sample belongs to a [`Pupil`].
use crate::algebra::{
    lemma_cancels, lemma_commutes, lemma_distributes, lemma_distributes_over_three,
    lemma_keeps_order, lemma_nothing, lemma_positive, lemma_reads_order, lemma_regroups,
    lemma_rolls, lemma_roots_order, lemma_square_is_not_negative, lemma_square_of_sum,
};
use crate::field::Field;
use crate::grid::{is_grid_size, offset_of, Grid};
use crate::optics::Optics;
use crate::plane::Plane;
use vstd::prelude::*;

verus! {

/// Which low-order terms to project out before a residual phase is measured.
#[derive(Debug, Clone, Copy, PartialEq, Eq, Structural)]
pub enum TiltRemoval {
    /// The mean only.
    PistonOnly,
    /// The mean and both tilts.
    PistonTipTilt,
}

/// Why a pupil is refused, or an integral over it has no meaning.
#[derive(Debug, Clone, Copy, PartialEq)]
pub enum ApertureError<R> {
    BadDiameter,
    /// The grid would clip the pupil.
    TooWide,
    /// Too few samples across: widen the pupil, or refine the grid.
    Undersampled { across: R },
    /// The reference beam carries no focal power.
    NoReferencePower,
    /// No power inside the pupil.
    NoPower,
    /// The phase is not of the grid's shape.
    PhaseShape,
    /// No samples inside the pupil.
    NoSamples,
    /// Too few samples to fit a plane.
    TooFewSamples { samples: usize },
    /// The plane fit is singular.
    Singular,
    BadWavelength,
    BadFocalLength,
    GridMismatch,
}

/// The arithmetic of a pupil, a sample at a time. Positions are signed
/// distances from the origin in samples.
pub trait Pupil: Optics {
    /// Whether a diameter fits a grid of `n` samples.
    fn fits(&self, n: usize, diameter: Self::Real) -> bool;

    /// Samples across a diameter.
    fn samples_across(&self, diameter: Self::Real) -> Self::Real;

    /// Whether that many samples are enough to integrate over.
    fn is_sampled(&self, across: Self::Real) -> bool;

    /// First sample of the bounding box on an axis of `n`.
    fn box_low(&self, n: usize, diameter: Self::Real) -> usize;

    /// Last sample of the bounding box on an axis of `n`, not yet widened.
    fn box_high(&self, n: usize, diameter: Self::Real) -> usize;

    /// Whether a position is inside a disc.
    fn is_inside(&self, x: isize, y: isize, diameter: Self::Real) -> bool;

    /// A position as a length.
    fn coordinate(&self, x: isize) -> Self::Real;

    fn minus(&self, a: Self::Real, b: Self::Real) -> Self::Real;

    /// A number of samples as a real.
    fn count(&self, n: usize) -> Self::Real;

    /// No amplitude.
    fn dark(&self) -> Self::Complex;

    fn superpose(&self, a: Self::Complex, b: Self::Complex) -> Self::Complex;

    /// Real and imaginary part of a sum of amplitudes, as an integral.
    fn amplitude_integral(&self, sum: Self::Complex) -> (Self::Real, Self::Real);

    fn modulus(&self, u: Self::Complex) -> Self::Real;

    /// A sum over samples as an integral.
    fn area_integral(&self, sum: Self::Real) -> Self::Real;

    fn determinant(&self, m: [[Self::Real; 3]; 3]) -> Self::Real;

    fn is_singular(&self, det: Self::Real) -> bool;

    /// A phase less a plane at a position.
    fn residual(
        &self,
        phase: Self::Real,
        plane: (Self::Real, Self::Real, Self::Real),
        x: Self::Real,
        y: Self::Real,
    ) -> Self::Real;

    /// Wavenumber of a wavelength.
    fn wavenumber_of(&self, wavelength: Self::Real) -> Self::Real;

    /// Phase gradient of an amplitude between its two neighbours, times the
    /// intensity.
    fn flow(&self, u: Self::Complex, before: Self::Complex, after: Self::Complex) -> Self::Real;
}

/// What an aperture is, mathematically: a disc on a grid, and the inclusive
/// bounds of its bounding box.
pub struct Disc<R> {
    pub grid: Grid<R>,
    pub diameter: R,
    pub lo: usize,
    pub hi: usize,
}

impl<R> Disc<R> {
    pub open spec fn valid(self) -> bool {
        &&& is_grid_size(self.grid.n as int)
        &&& self.grid.n <= isize::MAX
        &&& self.grid.n * self.grid.n <= usize::MAX
        &&& self.hi < self.grid.n
    }
}

/// Whether a sample of a grid was found inside a disc.
pub open spec fn is_found<K: Pupil>(
    k: K,
    n: int,
    diameter: K::Real,
    j: int,
    i: int,
    inside: bool,
) -> bool {
    call_ensures(
        K::is_inside,
        (&k, offset_of(n, i) as isize, offset_of(n, j) as isize, diameter),
        inside,
    )
}

/// Row-major order of samples.
pub open spec fn precedes(a: (usize, usize), b: (usize, usize)) -> bool {
    a.0 < b.0 || (a.0 == b.0 && a.1 < b.1)
}

/// A sample within a square of samples.
pub open spec fn in_box(lo: int, hi: int, p: (usize, usize)) -> bool {
    lo <= p.0 <= hi && lo <= p.1 <= hi
}

/// `samples` are the samples of a square that are inside a disc: in row-major
/// order, each once, every other one found outside.
pub open spec fn is_pupil<K: Pupil>(
    k: K,
    n: int,
    diameter: K::Real,
    lo: int,
    hi: int,
    samples: Seq<(usize, usize)>,
) -> bool {
    &&& forall|m: int|
        0 <= m < samples.len() ==> in_box(lo, hi, #[trigger] samples[m]) && is_found(
            k,
            n,
            diameter,
            samples[m].0 as int,
            samples[m].1 as int,
            true,
        )
    &&& forall|l: int, m: int|
        0 <= l < m < samples.len() ==> precedes(#[trigger] samples[l], #[trigger] samples[m])
    &&& forall|p: (usize, usize)|
        in_box(lo, hi, p) && !#[trigger] samples.contains(p) ==> is_found(
            k,
            n,
            diameter,
            p.0 as int,
            p.1 as int,
            false,
        )
}

/// `samples` are the pupil of a disc.
pub open spec fn is_pupil_of<K: Pupil>(
    k: K,
    d: Disc<K::Real>,
    samples: Seq<(usize, usize)>,
) -> bool {
    is_pupil(k, d.grid.n as int, d.diameter, d.lo as int, d.hi as int, samples)
}

/// The transitions that a step function may make.
pub open spec fn walk_steps_of<S, F: Fn(S, usize, usize) -> S>(f: F) -> spec_fn(
    S,
    (usize, usize),
    S,
) -> bool {
    |s: S, p: (usize, usize), next: S| call_ensures(f, (s, p.0, p.1), next)
}

/// `run[m]` is the state of a walk before sample `m`.
pub open spec fn is_walk_run<S>(
    samples: Seq<(usize, usize)>,
    init: S,
    step: spec_fn(S, (usize, usize), S) -> bool,
    run: Seq<S>,
) -> bool {
    &&& run.len() == samples.len() + 1
    &&& run[0] == init
    &&& forall|m: int|
        #![trigger samples[m]]
        0 <= m < samples.len() ==> step(run[m], samples[m], run[m + 1])
}

/// `out` is what a walk over the samples makes of `init`.
pub open spec fn is_walk<S>(
    samples: Seq<(usize, usize)>,
    init: S,
    step: spec_fn(S, (usize, usize), S) -> bool,
    out: S,
) -> bool {
    exists|run: Seq<S>| #[trigger] is_walk_run(samples, init, step, run) && run.last() == out
}

/// A walk under some steps is a walk under any that allow those steps.
proof fn lemma_walk_widens<S>(
    samples: Seq<(usize, usize)>,
    init: S,
    narrow: spec_fn(S, (usize, usize), S) -> bool,
    wide: spec_fn(S, (usize, usize), S) -> bool,
    out: S,
)
    requires
        is_walk(samples, init, narrow, out),
        forall|s: S, m: int, next: S|
            0 <= m < samples.len() && #[trigger] narrow(s, samples[m], next) ==> wide(
                s,
                samples[m],
                next,
            ),
    ensures
        is_walk(samples, init, wide, out),
{
    let run = choose|run: Seq<S>| #[trigger]
        is_walk_run(samples, init, narrow, run) && run.last() == out;
    assert forall|m: int|
        #![trigger samples[m]]
        0 <= m < samples.len() implies wide(run[m], samples[m], run[m + 1]) by {
        assert(narrow(run[m], samples[m], run[m + 1]));
    }
    assert(is_walk_run(samples, init, wide, run));
}

/// Walk over samples, folding a state.
fn walk<S: Copy, F: Fn(S, usize, usize) -> S>(
    samples: &[(usize, usize)],
    init: S,
    f: F,
) -> (out: S)
    requires
        forall|s: S, m: int|
            0 <= m < samples@.len() ==> #[trigger] call_requires(
                f,
                (s, samples@[m].0, samples@[m].1),
            ),
    ensures
        is_walk(samples@, init, walk_steps_of(f), out),
{
    let ghost step = walk_steps_of::<S, F>(f);
    let mut state: S = init;
    let ghost mut run: Seq<S> = seq![state];
    for m in 0..samples.len()
        invariant
            step == walk_steps_of::<S, F>(f),
            forall|s: S, l: int|
                0 <= l < samples@.len() ==> #[trigger] call_requires(
                    f,
                    (s, samples@[l].0, samples@[l].1),
                ),
            run.last() == state,
            is_walk_run(samples@.subrange(0, m as int), init, step, run),
    {
        let (j, i): (usize, usize) = samples[m];
        proof {
            assert(call_requires(f, (state, samples@[m as int].0, samples@[m as int].1)));
        }
        let next: S = f(state, j, i);
        proof {
            let shorter = samples@.subrange(0, m as int);
            let longer = samples@.subrange(0, m + 1);
            let run2 = run.push(next);
            assert(step(state, samples@[m as int], next));
            assert forall|l: int|
                #![trigger longer[l]]
                0 <= l < longer.len() implies step(run2[l], longer[l], run2[l + 1]) by {
                if l < m {
                    assert(longer[l] == shorter[l]);
                    assert(step(run[l], shorter[l], run[l + 1]));
                }
            }
            run = run2;
        }
        state = next;
    }
    proof {
        assert(samples@.subrange(0, samples@.len() as int) =~= samples@);
    }
    state
}

/// The sum of the amplitudes, sample by sample.
pub open spec fn superposes<K: Pupil>(k: K, u: Seq<Seq<K::Complex>>) -> spec_fn(
    K::Complex,
    (usize, usize),
    K::Complex,
) -> bool {
    |s: K::Complex, p: (usize, usize), next: K::Complex|
        call_ensures(K::superpose, (&k, s, u[p.0 as int][p.1 as int]), next)
}

/// The sum of the moduli, sample by sample.
pub open spec fn adds_moduli<K: Pupil>(k: K, u: Seq<Seq<K::Complex>>) -> spec_fn(
    K::Real,
    (usize, usize),
    K::Real,
) -> bool {
    |s: K::Real, p: (usize, usize), next: K::Real|
        exists|a: K::Real|
            #[trigger] call_ensures(K::modulus, (&k, u[p.0 as int][p.1 as int]), a)
                && call_ensures(K::plus, (&k, s, a), next)
}

/// The sum of a phase, sample by sample.
pub open spec fn adds_phase<K: Pupil>(k: K, phase: Seq<Seq<K::Real>>) -> spec_fn(
    K::Real,
    (usize, usize),
    K::Real,
) -> bool {
    |s: K::Real, p: (usize, usize), next: K::Real|
        call_ensures(K::plus, (&k, s, phase[p.0 as int][p.1 as int]), next)
}

/// Sums over a pupil that a plane is fitted from.
#[derive(Clone, Copy)]
pub struct Moments<R> {
    pub x: R,
    pub y: R,
    pub xx: R,
    pub yy: R,
    pub xy: R,
    pub p: R,
    pub xp: R,
    pub yp: R,
}

/// `after` is `before` plus a product.
pub open spec fn is_product_added<K: Pupil>(
    k: K,
    before: K::Real,
    a: K::Real,
    b: K::Real,
    after: K::Real,
) -> bool {
    exists|q: K::Real| #[trigger]
        call_ensures(K::times, (&k, a, b), q) && call_ensures(K::plus, (&k, before, q), after)
}

/// `b` is `a` with a sample of phase `p` at `(x, y)` added.
pub open spec fn is_moment_added<K: Pupil>(
    k: K,
    a: Moments<K::Real>,
    x: K::Real,
    y: K::Real,
    p: K::Real,
    b: Moments<K::Real>,
) -> bool {
    &&& call_ensures(K::plus, (&k, a.x, x), b.x)
    &&& call_ensures(K::plus, (&k, a.y, y), b.y)
    &&& is_product_added(k, a.xx, x, x, b.xx)
    &&& is_product_added(k, a.yy, y, y, b.yy)
    &&& is_product_added(k, a.xy, x, y, b.xy)
    &&& call_ensures(K::plus, (&k, a.p, p), b.p)
    &&& is_product_added(k, a.xp, x, p, b.xp)
    &&& is_product_added(k, a.yp, y, p, b.yp)
}

/// `x` and `y` are the coordinates of a sample.
pub open spec fn is_placed<K: Pupil>(
    k: K,
    n: int,
    p: (usize, usize),
    x: K::Real,
    y: K::Real,
) -> bool {
    &&& call_ensures(K::coordinate, (&k, offset_of(n, p.1 as int) as isize), x)
    &&& call_ensures(K::coordinate, (&k, offset_of(n, p.0 as int) as isize), y)
}

/// The moments of a phase, sample by sample.
pub open spec fn adds_moments<K: Pupil>(k: K, n: int, phase: Seq<Seq<K::Real>>) -> spec_fn(
    Moments<K::Real>,
    (usize, usize),
    Moments<K::Real>,
) -> bool {
    |s: Moments<K::Real>, p: (usize, usize), next: Moments<K::Real>|
        exists|x: K::Real, y: K::Real| #[trigger]
            is_placed(k, n, p, x, y) && is_moment_added(
                k,
                s,
                x,
                y,
                phase[p.0 as int][p.1 as int],
                next,
            )
}

/// The squared residuals of a phase about a plane, sample by sample.
pub open spec fn adds_residuals<K: Pupil>(
    k: K,
    n: int,
    phase: Seq<Seq<K::Real>>,
    plane: (K::Real, K::Real, K::Real),
) -> spec_fn(K::Real, (usize, usize), K::Real) -> bool {
    |s: K::Real, p: (usize, usize), next: K::Real|
        exists|x: K::Real, y: K::Real, r: K::Real|
            {
                &&& #[trigger] is_placed(k, n, p, x, y)
                &&& #[trigger] call_ensures(
                    K::residual,
                    (&k, phase[p.0 as int][p.1 as int], plane, x, y),
                    r,
                )
                &&& is_product_added(k, s, r, r, next)
            }
}

/// Nothing summed yet.
pub open spec fn are_no_moments<K: Pupil>(k: K, m: Moments<K::Real>) -> bool {
    &&& call_ensures(K::zero, (&k,), m.x)
    &&& call_ensures(K::zero, (&k,), m.y)
    &&& call_ensures(K::zero, (&k,), m.xx)
    &&& call_ensures(K::zero, (&k,), m.yy)
    &&& call_ensures(K::zero, (&k,), m.xy)
    &&& call_ensures(K::zero, (&k,), m.p)
    &&& call_ensures(K::zero, (&k,), m.xp)
    &&& call_ensures(K::zero, (&k,), m.yp)
}

/// `m` are the moments of a phase over a pupil.
pub open spec fn are_moments<K: Pupil>(
    k: K,
    n: int,
    phase: Seq<Seq<K::Real>>,
    samples: Seq<(usize, usize)>,
    m: Moments<K::Real>,
) -> bool {
    exists|none: Moments<K::Real>| #[trigger]
        are_no_moments(k, none) && is_walk(samples, none, adds_moments(k, n, phase), m)
}

/// The normal matrix of a plane fit.
pub open spec fn is_normal_matrix<R>(n: R, s: Moments<R>, m: [[R; 3]; 3]) -> bool {
    &&& m[0][0] == n && m[0][1] == s.x && m[0][2] == s.y
    &&& m[1][0] == s.x && m[1][1] == s.xx && m[1][2] == s.xy
    &&& m[2][0] == s.y && m[2][1] == s.xy && m[2][2] == s.yy
}

/// `b` is `m` with column `c` replaced.
pub open spec fn is_column_replaced<R>(m: [[R; 3]; 3], rhs: [R; 3], c: int, b: [[R; 3]; 3]) -> bool {
    forall|r: int, d: int|
        0 <= r < 3 && 0 <= d < 3 ==> #[trigger] b[r][d] == if d == c {
            rhs[r]
        } else {
            m[r][d]
        }
}

/// `v` is unknown `c` of a linear system by Cramer's rule.
pub open spec fn is_unknown<K: Pupil>(
    k: K,
    m: [[K::Real; 3]; 3],
    rhs: [K::Real; 3],
    det: K::Real,
    c: int,
    v: K::Real,
) -> bool {
    exists|b: [[K::Real; 3]; 3], top: K::Real|
        {
            &&& is_column_replaced(m, rhs, c, b)
            &&& #[trigger] call_ensures(K::determinant, (&k, b), top)
            &&& call_ensures(K::ratio, (&k, top, det), v)
        }
}

/// A fitted plane: offset, both slopes, and the samples that it rests on.
pub struct Fit<R> {
    pub plane: (R, R, R),
    pub count: R,
}

/// What a plane fit over a pupil may return.
pub open spec fn is_plane_fit<K: Pupil>(
    k: K,
    n: int,
    phase: Plane<K::Real>,
    samples: Seq<(usize, usize)>,
    r: Result<Fit<K::Real>, ApertureError<K::Real>>,
) -> bool {
    let shaped = phase.wf() && phase@.len() == n && phase.spec_width() == n;
    let enough = shaped && samples.len() >= 3;
    match r {
        Err(ApertureError::PhaseShape) => !shaped,
        Err(ApertureError::TooFewSamples { samples: m }) => {
            shaped && samples.len() < 3 && m == samples.len()
        },
        Err(ApertureError::Singular) => enough && exists|sys: NormalSystem<K::Real>| #[trigger]
            is_normal_system(k, n, phase@, samples, sys) && call_ensures(
                K::is_singular,
                (&k, sys.det),
                true,
            ),
        Err(_) => false,
        Ok(fit) => enough && exists|sys: NormalSystem<K::Real>| #[trigger]
            is_normal_system(k, n, phase@, samples, sys) && is_solved(k, sys, fit),
    }
}

/// The linear system of a plane fit.
pub struct NormalSystem<R> {
    pub count: R,
    pub matrix: [[R; 3]; 3],
    pub rhs: [R; 3],
    pub det: R,
}

pub open spec fn is_normal_system<K: Pupil>(
    k: K,
    n: int,
    phase: Seq<Seq<K::Real>>,
    samples: Seq<(usize, usize)>,
    sys: NormalSystem<K::Real>,
) -> bool {
    exists|m: Moments<K::Real>|
        {
            &&& #[trigger] are_moments(k, n, phase, samples, m)
            &&& call_ensures(K::count, (&k, samples.len() as usize), sys.count)
            &&& is_normal_matrix(sys.count, m, sys.matrix)
            &&& sys.rhs[0] == m.p && sys.rhs[1] == m.xp && sys.rhs[2] == m.yp
            &&& call_ensures(K::determinant, (&k, sys.matrix), sys.det)
        }
}

pub open spec fn is_solved<K: Pupil>(
    k: K,
    sys: NormalSystem<K::Real>,
    fit: Fit<K::Real>,
) -> bool {
    &&& call_ensures(K::is_singular, (&k, sys.det), false)
    &&& fit.count == sys.count
    &&& is_unknown(k, sys.matrix, sys.rhs, sys.det, 0, fit.plane.0)
    &&& is_unknown(k, sys.matrix, sys.rhs, sys.det, 1, fit.plane.1)
    &&& is_unknown(k, sys.matrix, sys.rhs, sys.det, 2, fit.plane.2)
}

/// The mean of a phase over a pupil, as a level plane.
pub open spec fn is_piston<K: Pupil>(
    k: K,
    phase: Seq<Seq<K::Real>>,
    samples: Seq<(usize, usize)>,
    fit: Fit<K::Real>,
) -> bool {
    exists|zero: K::Real, sum: K::Real|
        {
            &&& #[trigger] call_ensures(K::zero, (&k,), zero)
            &&& #[trigger] is_walk(samples, zero, adds_phase(k, phase), sum)
            &&& call_ensures(K::count, (&k, samples.len() as usize), fit.count)
            &&& call_ensures(K::ratio, (&k, sum, fit.count), fit.plane.0)
            &&& call_ensures(K::zero, (&k,), fit.plane.1)
            &&& call_ensures(K::zero, (&k,), fit.plane.2)
        }
}

/// The mean squared residual of a phase about a fit.
pub open spec fn is_variance<K: Pupil>(
    k: K,
    n: int,
    phase: Seq<Seq<K::Real>>,
    samples: Seq<(usize, usize)>,
    fit: Fit<K::Real>,
    v: K::Real,
) -> bool {
    exists|zero: K::Real, sum: K::Real|
        {
            &&& #[trigger] call_ensures(K::zero, (&k,), zero)
            &&& #[trigger] is_walk(samples, zero, adds_residuals(k, n, phase, fit.plane), sum)
            &&& call_ensures(K::ratio, (&k, sum, fit.count), v)
        }
}

/// What [`Aperture::residual_phase_variance`] may return for a pupil.
pub open spec fn is_residual_variance<K: Pupil>(
    k: K,
    n: int,
    phase: Plane<K::Real>,
    mode: TiltRemoval,
    samples: Seq<(usize, usize)>,
    r: Result<K::Real, ApertureError<K::Real>>,
) -> bool {
    let shaped = phase.wf() && phase@.len() == n && phase.spec_width() == n;
    match mode {
        TiltRemoval::PistonOnly => match r {
            Err(ApertureError::PhaseShape) => !shaped,
            Err(ApertureError::NoSamples) => shaped && samples.len() == 0,
            Err(_) => false,
            Ok(v) => shaped && samples.len() > 0 && exists|fit: Fit<K::Real>| #[trigger]
                is_piston(k, phase@, samples, fit) && is_variance(k, n, phase@, samples, fit, v),
        },
        TiltRemoval::PistonTipTilt => match r {
            Err(e) => is_plane_fit(k, n, phase, samples, Err(e)),
            Ok(v) => exists|fit: Fit<K::Real>| #[trigger]
                is_plane_fit(k, n, phase, samples, Ok(fit)) && is_variance(
                    k,
                    n,
                    phase@,
                    samples,
                    fit,
                    v,
                ),
        },
    }
}

/// What [`Aperture::mean_tilt`] may return for a pupil.
pub open spec fn is_mean_tilt<K: Pupil>(
    k: K,
    n: int,
    phase: Plane<K::Real>,
    wavelength: K::Real,
    samples: Seq<(usize, usize)>,
    r: Result<(K::Real, K::Real), ApertureError<K::Real>>,
) -> bool {
    let valid = call_ensures(K::is_positive, (&k, wavelength), true);
    match r {
        Err(ApertureError::BadWavelength) => {
            call_ensures(K::is_positive, (&k, wavelength), false)
        },
        Err(e) => valid && is_plane_fit(k, n, phase, samples, Err(e)),
        Ok(t) => valid && exists|fit: Fit<K::Real>, wave: K::Real|
            {
                &&& #[trigger] is_plane_fit(k, n, phase, samples, Ok(fit))
                &&& #[trigger] call_ensures(K::wavenumber_of, (&k, wavelength), wave)
                &&& call_ensures(K::ratio, (&k, fit.plane.1, wave), t.0)
                &&& call_ensures(K::ratio, (&k, fit.plane.2, wave), t.1)
            },
    }
}

/// A pair of tilts as displacements in a focal plane.
pub open spec fn is_wander<K: Pupil>(
    k: K,
    focal_length: K::Real,
    t: (K::Real, K::Real),
    w: (K::Real, K::Real),
) -> bool {
    &&& call_ensures(K::times, (&k, focal_length, t.0), w.0)
    &&& call_ensures(K::times, (&k, focal_length, t.1), w.1)
}

/// Sums over a pupil that a field's tilt is taken from.
#[derive(Clone, Copy)]
pub struct Flow<R> {
    pub x: R,
    pub y: R,
    pub weight: R,
}

/// A sample with all four neighbours on a grid of `n`.
pub open spec fn has_neighbours(n: int, p: (usize, usize)) -> bool {
    0 < p.0 < n - 1 && 0 < p.1 < n - 1
}

/// `b` is `a` with the phase flow and the intensity of a sample added.
pub open spec fn is_flow_added<K: Pupil>(
    k: K,
    u: Seq<Seq<K::Complex>>,
    j: int,
    i: int,
    a: Flow<K::Real>,
    b: Flow<K::Real>,
) -> bool {
    exists|fx: K::Real, fy: K::Real, w: K::Real|
        {
            &&& #[trigger] call_ensures(K::flow, (&k, u[j][i], u[j][i - 1], u[j][i + 1]), fx)
            &&& #[trigger] call_ensures(K::flow, (&k, u[j][i], u[j - 1][i], u[j + 1][i]), fy)
            &&& #[trigger] call_ensures(K::intensity, (&k, u[j][i]), w)
            &&& call_ensures(K::plus, (&k, a.x, fx), b.x)
            &&& call_ensures(K::plus, (&k, a.y, fy), b.y)
            &&& call_ensures(K::plus, (&k, a.weight, w), b.weight)
        }
}

/// The phase flow of a field, sample by sample; a sample at the edge of the
/// grid is passed over.
pub open spec fn adds_flow<K: Pupil>(k: K, n: int, u: Seq<Seq<K::Complex>>) -> spec_fn(
    Flow<K::Real>,
    (usize, usize),
    Flow<K::Real>,
) -> bool {
    |s: Flow<K::Real>, p: (usize, usize), next: Flow<K::Real>|
        if has_neighbours(n, p) {
            is_flow_added(k, u, p.0 as int, p.1 as int, s, next)
        } else {
            next == s
        }
}

/// No flow yet.
pub open spec fn is_no_flow<K: Pupil>(k: K, f: Flow<K::Real>) -> bool {
    &&& call_ensures(K::zero, (&k,), f.x)
    &&& call_ensures(K::zero, (&k,), f.y)
    &&& call_ensures(K::zero, (&k,), f.weight)
}

/// `f` is the phase flow of a field over a pupil.
pub open spec fn is_flow<K: Pupil>(
    k: K,
    n: int,
    u: Seq<Seq<K::Complex>>,
    samples: Seq<(usize, usize)>,
    f: Flow<K::Real>,
) -> bool {
    exists|none: Flow<K::Real>| #[trigger]
        is_no_flow(k, none) && is_walk(samples, none, adds_flow(k, n, u), f)
}

/// `t` is a flow component per weight and wavenumber.
pub open spec fn is_tilt<K: Pupil>(
    k: K,
    flow: K::Real,
    weight: K::Real,
    wave: K::Real,
    t: K::Real,
) -> bool {
    exists|gradient: K::Real| #[trigger]
        call_ensures(K::ratio, (&k, flow, weight), gradient) && call_ensures(
            K::ratio,
            (&k, gradient, wave),
            t,
        )
}

/// What [`Aperture::mean_tilt_of_field`] may return for a pupil.
pub open spec fn is_field_tilt<K: Pupil>(
    k: K,
    n: int,
    field: Field<K::Real, K::Complex>,
    wavelength: K::Real,
    samples: Seq<(usize, usize)>,
    r: Result<(K::Real, K::Real), ApertureError<K::Real>>,
) -> bool {
    let valid = call_ensures(K::is_positive, (&k, wavelength), true);
    let matched = valid && field.grid.n == n;
    match r {
        Err(ApertureError::BadWavelength) => {
            call_ensures(K::is_positive, (&k, wavelength), false)
        },
        Err(ApertureError::GridMismatch) => valid && field.grid.n != n,
        Err(ApertureError::NoPower) => matched && exists|f: Flow<K::Real>| #[trigger]
            is_flow(k, n, field.u@, samples, f) && call_ensures(
                K::is_positive,
                (&k, f.weight),
                false,
            ),
        Err(_) => false,
        Ok(t) => matched && exists|f: Flow<K::Real>, wave: K::Real|
            {
                &&& #[trigger] is_flow(k, n, field.u@, samples, f)
                &&& call_ensures(K::is_positive, (&k, f.weight), true)
                &&& #[trigger] call_ensures(K::wavenumber_of, (&k, wavelength), wave)
                &&& is_tilt(k, f.x, f.weight, wave, t.0)
                &&& is_tilt(k, f.y, f.weight, wave, t.1)
            },
    }
}

/// `s` is the integral of the amplitude over a pupil.
pub open spec fn is_coherent_sum<K: Pupil>(
    k: K,
    u: Seq<Seq<K::Complex>>,
    samples: Seq<(usize, usize)>,
    s: (K::Real, K::Real),
) -> bool {
    exists|dark: K::Complex, sum: K::Complex|
        {
            &&& #[trigger] call_ensures(K::dark, (&k,), dark)
            &&& #[trigger] is_walk(samples, dark, superposes(k, u), sum)
            &&& call_ensures(K::amplitude_integral, (&k, sum), s)
        }
}

/// `p` is the squared modulus of the amplitude's integral.
pub open spec fn is_focal_power<K: Pupil>(
    k: K,
    u: Seq<Seq<K::Complex>>,
    samples: Seq<(usize, usize)>,
    p: K::Real,
) -> bool {
    exists|s: (K::Real, K::Real), square: K::Real|
        {
            &&& #[trigger] is_coherent_sum(k, u, samples, s)
            &&& #[trigger] call_ensures(K::times, (&k, s.0, s.0), square)
            &&& is_product_added(k, square, s.1, s.1, p)
        }
}

/// `s` is the integral of the modulus over a pupil.
pub open spec fn is_incoherent_sum<K: Pupil>(
    k: K,
    u: Seq<Seq<K::Complex>>,
    samples: Seq<(usize, usize)>,
    s: K::Real,
) -> bool {
    exists|zero: K::Real, sum: K::Real|
        {
            &&& #[trigger] call_ensures(K::zero, (&k,), zero)
            &&& #[trigger] is_walk(samples, zero, adds_moduli(k, u), sum)
            &&& call_ensures(K::area_integral, (&k, sum), s)
        }
}

/// What [`Aperture::focal_intensity_ratio`] may return for a pupil.
pub open spec fn is_intensity_ratio<K: Pupil>(
    k: K,
    u: Seq<Seq<K::Complex>>,
    reference: Seq<Seq<K::Complex>>,
    samples: Seq<(usize, usize)>,
    again: Seq<(usize, usize)>,
    r: Result<K::Real, ApertureError<K::Real>>,
) -> bool {
    exists|denom: K::Real|
        {
            &&& #[trigger] is_focal_power(k, reference, samples, denom)
            &&& match r {
                Err(e) => call_ensures(K::is_positive, (&k, denom), false) && e
                    is NoReferencePower,
                Ok(q) => call_ensures(K::is_positive, (&k, denom), true) && is_power_over(
                    k,
                    u,
                    again,
                    denom,
                    q,
                ),
            }
        }
}

/// `q` is a focal power over a denominator.
pub open spec fn is_power_over<K: Pupil>(
    k: K,
    u: Seq<Seq<K::Complex>>,
    samples: Seq<(usize, usize)>,
    denom: K::Real,
    q: K::Real,
) -> bool {
    exists|p: K::Real| #[trigger]
        is_focal_power(k, u, samples, p) && call_ensures(K::ratio, (&k, p, denom), q)
}

/// What [`Aperture::phase_only_strehl`] may return for a pupil.
pub open spec fn is_strehl<K: Pupil>(
    k: K,
    u: Seq<Seq<K::Complex>>,
    samples: Seq<(usize, usize)>,
    again: Seq<(usize, usize)>,
    r: Result<K::Real, ApertureError<K::Real>>,
) -> bool {
    exists|best: K::Real|
        {
            &&& #[trigger] is_incoherent_sum(k, u, samples, best)
            &&& match r {
                Err(e) => call_ensures(K::is_positive, (&k, best), false) && e is NoPower,
                Ok(q) => call_ensures(K::is_positive, (&k, best), true) && is_power_over_square(
                    k,
                    u,
                    again,
                    best,
                    q,
                ),
            }
        }
}

pub open spec fn is_power_over_square<K: Pupil>(
    k: K,
    u: Seq<Seq<K::Complex>>,
    samples: Seq<(usize, usize)>,
    best: K::Real,
    q: K::Real,
) -> bool {
    exists|square: K::Real| #[trigger]
        call_ensures(K::times, (&k, best, best), square) && is_power_over(k, u, samples, square, q)
}

/// The mean tilt of a phase over a disc.
pub open spec fn is_tilt_of_phase<K: Pupil>(
    k: K,
    d: Disc<K::Real>,
    phase: Plane<K::Real>,
    wavelength: K::Real,
    r: Result<(K::Real, K::Real), ApertureError<K::Real>>,
) -> bool {
    exists|samples: Seq<(usize, usize)>| #[trigger]
        is_pupil_of(k, d, samples) && is_mean_tilt(k, d.grid.n as int, phase, wavelength, samples, r)
}

/// The mean tilt of a field over a disc.
pub open spec fn is_tilt_of_field<K: Pupil>(
    k: K,
    d: Disc<K::Real>,
    field: Field<K::Real, K::Complex>,
    wavelength: K::Real,
    r: Result<(K::Real, K::Real), ApertureError<K::Real>>,
) -> bool {
    exists|samples: Seq<(usize, usize)>| #[trigger]
        is_pupil_of(k, d, samples) && is_field_tilt(k, d.grid.n as int, field, wavelength, samples, r)
}

/// A circular pupil centred on a grid.
#[derive(Debug, Clone, Copy, PartialEq)]
pub struct Aperture<R> {
    grid: Grid<R>,
    diameter: R,
    lo: usize,
    hi: usize,
}

impl<R> View for Aperture<R> {
    type V = Disc<R>;

    closed spec fn view(&self) -> Disc<R> {
        Disc { grid: self.grid, diameter: self.diameter, lo: self.lo, hi: self.hi }
    }
}

/// Last sample of a bounding box, widened by one and kept on the grid.
pub open spec fn widened(high: usize, n: usize) -> int {
    if high < n - 1 {
        high + 1
    } else {
        n - 1
    }
}

/// What building a pupil may return.
pub open spec fn is_aperture<K: Pupil>(
    k: K,
    grid: Grid<K::Real>,
    diameter: K::Real,
    r: Result<Aperture<K::Real>, ApertureError<K::Real>>,
) -> bool {
    let valid = call_ensures(K::is_positive, (&k, diameter), true);
    let fits = valid && call_ensures(K::fits, (&k, grid.n, diameter), true);
    match r {
        Err(ApertureError::BadDiameter) => call_ensures(K::is_positive, (&k, diameter), false),
        Err(ApertureError::TooWide) => {
            valid && call_ensures(K::fits, (&k, grid.n, diameter), false)
        },
        Err(ApertureError::Undersampled { across }) => {
            &&& fits
            &&& call_ensures(K::samples_across, (&k, diameter), across)
            &&& call_ensures(K::is_sampled, (&k, across), false)
        },
        Err(_) => false,
        Ok(a) => {
            &&& fits
            &&& is_across(k, diameter, true)
            &&& a@.grid == grid
            &&& a@.diameter == diameter
            &&& call_ensures(K::box_low, (&k, grid.n, diameter), a@.lo)
            &&& is_box_end(k, grid.n, diameter, a@.hi)
            &&& a@.valid()
        },
    }
}

/// Whether a diameter is sampled well enough.
pub open spec fn is_across<K: Pupil>(k: K, diameter: K::Real, enough: bool) -> bool {
    exists|across: K::Real| #[trigger]
        call_ensures(K::samples_across, (&k, diameter), across) && call_ensures(
            K::is_sampled,
            (&k, across),
            enough,
        )
}

pub open spec fn is_box_end<K: Pupil>(k: K, n: usize, diameter: K::Real, hi: usize) -> bool {
    exists|high: usize| #[trigger]
        call_ensures(K::box_high, (&k, n, diameter), high) && hi == widened(high, n)
}

/// A matrix with one entry of a row replaced.
fn replaced_row<R: Copy>(row: [R; 3], c: usize, v: R) -> (out: [R; 3])
    requires
        c < 3,
    ensures
        forall|d: int|
            0 <= d < 3 ==> #[trigger] out[d] == if d == c {
                v
            } else {
                row[d]
            },
{
    let a: R = if c == 0 {
        v
    } else {
        row[0]
    };
    let b: R = if c == 1 {
        v
    } else {
        row[1]
    };
    let d: R = if c == 2 {
        v
    } else {
        row[2]
    };
    [a, b, d]
}

/// Unknown `c` of a linear system by Cramer's rule.
fn solve<K: Pupil>(
    k: &K,
    m: [[K::Real; 3]; 3],
    rhs: [K::Real; 3],
    det: K::Real,
    c: usize,
) -> (v: K::Real)
    requires
        c < 3,
    ensures
        is_unknown(*k, m, rhs, det, c as int, v),
{
    let b: [[K::Real; 3]; 3] = [
        replaced_row(m[0], c, rhs[0]),
        replaced_row(m[1], c, rhs[1]),
        replaced_row(m[2], c, rhs[2]),
    ];
    let top: K::Real = k.determinant(b);
    proof {
        assert forall|r: int, d: int| 0 <= r < 3 && 0 <= d < 3 implies #[trigger] b[r][d] == if d
            == c {
            rhs[r]
        } else {
            m[r][d]
        } by {
            assert(r == 0 || r == 1 || r == 2);
        }
        assert(is_column_replaced(m, rhs, c as int, b));
    }
    k.ratio(top, det)
}

impl<R: Copy> Aperture<R> {
    /// A circular pupil on a grid. It must fit the grid and be sampled well
    /// enough to integrate over.
    pub fn new<K: Pupil + Optics<Real = R>>(k: &K, grid: Grid<R>, diameter: R) -> (r: Result<
        Self,
        ApertureError<K::Real>,
    >)
        requires
            is_grid_size(grid.n as int),
            grid.n <= isize::MAX,
            grid.n * grid.n <= usize::MAX,
        ensures
            is_aperture(*k, grid, diameter, r),
    {
        if !k.is_positive(diameter) {
            return Err(ApertureError::BadDiameter);
        }
        if !k.fits(grid.n, diameter) {
            return Err(ApertureError::TooWide);
        }
        let across: R = k.samples_across(diameter);
        let enough: bool = k.is_sampled(across);
        proof {
            assert(is_across(*k, diameter, enough));
        }
        if !enough {
            return Err(ApertureError::Undersampled { across });
        }
        let lo: usize = k.box_low(grid.n, diameter);
        let high: usize = k.box_high(grid.n, diameter);
        let hi: usize = if high < grid.n - 1 {
            high + 1
        } else {
            grid.n - 1
        };
        proof {
            assert(is_box_end(*k, grid.n, diameter, hi));
        }
        Ok(Aperture { grid, diameter, lo, hi })
    }

    pub fn diameter(&self) -> (d: R)
        ensures
            d == self@.diameter,
    {
        self.diameter
    }

    /// Samples across the diameter.
    pub fn samples_across<K: Pupil + Optics<Real = R>>(&self, k: &K) -> (s: R)
        ensures
            call_ensures(K::samples_across, (k, self@.diameter), s),
    {
        k.samples_across(self.diameter)
    }

    /// Whether sample `(iy, ix)` lies inside the pupil.
    fn contains<K: Pupil + Optics<Real = R>>(&self, k: &K, iy: usize, ix: usize) -> (b: bool)
        requires
            self@.valid(),
            iy < self@.grid.n,
            ix < self@.grid.n,
        ensures
            is_found(*k, self@.grid.n as int, self@.diameter, iy as int, ix as int, b),
    {
        let x: isize = self.grid.offset(ix);
        let y: isize = self.grid.offset(iy);
        k.is_inside(x, y, self.diameter)
    }

    /// The samples inside the pupil, in row-major order. Only the bounding box
    /// is looked at.
    pub fn samples<K: Pupil + Optics<Real = R>>(&self, k: &K) -> (s: Vec<(usize, usize)>)
        requires
            self@.valid(),
        ensures
            is_pupil_of(*k, self@, s@),
            forall|m: int|
                0 <= m < s@.len() ==> (#[trigger] s@[m]).0 < self@.grid.n && s@[m].1
                    < self@.grid.n,
    {
        let mut s: Vec<(usize, usize)> = Vec::new();
        let ghost n = self@.grid.n as int;
        let mut iy: usize = self.lo;
        while iy <= self.hi
            invariant
                self@.valid(),
                n == self@.grid.n,
                self.lo <= iy,
                iy <= self.hi + 1 || iy == self.lo,
                is_walked(*k, self@, iy as int, self@.lo as int, s@),
            decreases self.hi + 1 - iy,
        {
            let mut ix: usize = self.lo;
            while ix <= self.hi
                invariant
                    self@.valid(),
                    n == self@.grid.n,
                    self.lo <= iy <= self.hi,
                    self.lo <= ix,
                    ix <= self.hi + 1 || ix == self.lo,
                    is_walked(*k, self@, iy as int, ix as int, s@),
                decreases self.hi + 1 - ix,
            {
                let inside: bool = self.contains(k, iy, ix);
                let ghost before = s@;
                if inside {
                    s.push((iy, ix));
                }
                proof {
                    lemma_walked_further(*k, self@, iy, ix, before, inside);
                }
                ix = ix + 1;
            }
            proof {
                lemma_row_walked(*k, self@, iy as int, ix as int, s@);
            }
            iy = iy + 1;
        }
        proof {
            lemma_walked_through(*k, self@, iy as int, s@);
        }
        s
    }

    /// Number of samples inside the pupil.
    pub fn sample_count<K: Pupil + Optics<Real = R>>(&self, k: &K) -> (n: usize)
        requires
            self@.valid(),
        ensures
            exists|s: Seq<(usize, usize)>| #[trigger]
                is_pupil_of(*k, self@, s) && n == s.len(),
    {
        let s: Vec<(usize, usize)> = self.samples(k);
        proof {
            assert(is_pupil_of(*k, self@, s@));
        }
        s.len()
    }
}

/// `s` are the inside samples of the box before row `j`, column `i`.
pub open spec fn is_walked<K: Pupil>(
    k: K,
    d: Disc<K::Real>,
    j: int,
    i: int,
    s: Seq<(usize, usize)>,
) -> bool {
    let n = d.grid.n as int;
    &&& forall|m: int|
        0 <= m < s.len() ==> in_box(d.lo as int, d.hi as int, #[trigger] s[m]) && is_before(
            s[m],
            j,
            i,
        ) && is_found(k, n, d.diameter, s[m].0 as int, s[m].1 as int, true)
    &&& forall|l: int, m: int|
        0 <= l < m < s.len() ==> precedes(#[trigger] s[l], #[trigger] s[m])
    &&& forall|p: (usize, usize)|
        in_box(d.lo as int, d.hi as int, p) && is_before(p, j, i) && !#[trigger] s.contains(p)
            ==> is_found(k, n, d.diameter, p.0 as int, p.1 as int, false)
}

/// A sample before row `j`, column `i`.
pub open spec fn is_before(p: (usize, usize), j: int, i: int) -> bool {
    p.0 < j || (p.0 == j && p.1 < i)
}

proof fn lemma_walked_further<K: Pupil>(
    k: K,
    d: Disc<K::Real>,
    j: usize,
    i: usize,
    s: Seq<(usize, usize)>,
    inside: bool,
)
    requires
        is_walked(k, d, j as int, i as int, s),
        in_box(d.lo as int, d.hi as int, (j, i)),
        is_found(k, d.grid.n as int, d.diameter, j as int, i as int, inside),
    ensures
        is_walked(
            k,
            d,
            j as int,
            i + 1,
            if inside {
                s.push((j, i))
            } else {
                s
            },
        ),
{
    let n = d.grid.n as int;
    if inside {
        let t = s.push((j, i));
        assert forall|p: (usize, usize)|
            in_box(d.lo as int, d.hi as int, p) && is_before(p, j as int, i + 1)
                && !#[trigger] t.contains(p) implies is_found(
            k,
            n,
            d.diameter,
            p.0 as int,
            p.1 as int,
            false,
        ) by {
            assert(t[s.len() as int] == (j, i));
            assert(t.contains((j, i)));
            if s.contains(p) {
                let m = choose|m: int| 0 <= m < s.len() && s[m] == p;
                assert(t[m] == p);
            }
            assert(p != (j, i));
        }
    } else {
        assert forall|p: (usize, usize)|
            in_box(d.lo as int, d.hi as int, p) && is_before(p, j as int, i + 1)
                && !#[trigger] s.contains(p) implies is_found(
            k,
            n,
            d.diameter,
            p.0 as int,
            p.1 as int,
            false,
        ) by {
            if !is_before(p, j as int, i as int) {
                assert(p == (j, i));
            }
        }
    }
}

/// A walked row of the box is a walked row.
proof fn lemma_row_walked<K: Pupil>(
    k: K,
    d: Disc<K::Real>,
    j: int,
    i: int,
    s: Seq<(usize, usize)>,
)
    requires
        is_walked(k, d, j, i, s),
        i > d.hi,
    ensures
        is_walked(k, d, j + 1, d.lo as int, s),
{
    let n = d.grid.n as int;
    assert forall|p: (usize, usize)|
        in_box(d.lo as int, d.hi as int, p) && is_before(p, j + 1, d.lo as int)
            && !#[trigger] s.contains(p) implies is_found(
        k,
        n,
        d.diameter,
        p.0 as int,
        p.1 as int,
        false,
    ) by {
        assert(is_before(p, j, i));
    }
}

/// A walked box is the pupil.
proof fn lemma_walked_through<K: Pupil>(k: K, d: Disc<K::Real>, j: int, s: Seq<(usize, usize)>)
    requires
        is_walked(k, d, j, d.lo as int, s),
        j > d.hi,
    ensures
        is_pupil_of(k, d, s),
{
    let n = d.grid.n as int;
    assert forall|p: (usize, usize)|
        in_box(d.lo as int, d.hi as int, p) && !#[trigger] s.contains(p) implies is_found(
        k,
        n,
        d.diameter,
        p.0 as int,
        p.1 as int,
        false,
    ) by {
        assert(is_before(p, j, d.lo as int));
    }
}

/// A field that lives on an aperture's grid.
pub open spec fn is_on<R, C>(d: Disc<R>, field: Field<R, C>) -> bool {
    field.valid() && field.grid.n == d.grid.n
}

impl<R: Copy> Aperture<R> {
    /// Integral of the amplitude over the pupil, as real and imaginary part.
    pub fn coherent_sum<K: Pupil + Optics<Real = R>>(&self, k: &K, field: &Field<R, K::Complex>) -> (s: (
        R,
        R,
    ))
        requires
            self@.valid(),
            is_on(self@, *field),
        ensures
            exists|samples: Seq<(usize, usize)>| #[trigger]
                is_pupil_of(*k, self@, samples) && is_coherent_sum(*k, field.u@, samples, s),
    {
        let samples: Vec<(usize, usize)> = self.samples(k);
        let u: &Plane<K::Complex> = &field.u;
        let step = |s: K::Complex, j: usize, i: usize| -> (next: K::Complex)
            requires
                u.wf(),
                j < u@.len(),
                i < u.spec_width(),
            ensures
                call_ensures(K::superpose, (k, s, u@[j as int][i as int]), next),
            { k.superpose(s, *u.at(j, i)) };
        let dark: K::Complex = k.dark();
        let sum: K::Complex = walk(samples.as_slice(), dark, step);
        let s: (R, R) = k.amplitude_integral(sum);
        proof {
            lemma_walk_widens(
                samples@,
                dark,
                walk_steps_of(step),
                superposes(*k, field.u@),
                sum,
            );
            assert(is_pupil_of(*k, self@, samples@));
            assert(is_coherent_sum(*k, field.u@, samples@, s));
        }
        s
    }

    /// Squared modulus of the amplitude's integral over the pupil.
    pub fn focal_power<K: Pupil + Optics<Real = R>>(&self, k: &K, field: &Field<R, K::Complex>) -> (p: R)
        requires
            self@.valid(),
            is_on(self@, *field),
        ensures
            exists|samples: Seq<(usize, usize)>| #[trigger]
                is_pupil_of(*k, self@, samples) && is_focal_power(*k, field.u@, samples, p),
    {
        let s: (R, R) = self.coherent_sum(k, field);
        let square: R = k.times(s.0, s.0);
        let other: R = k.times(s.1, s.1);
        let p: R = k.plus(square, other);
        proof {
            let samples = choose|samples: Seq<(usize, usize)>| #[trigger]
                is_pupil_of(*k, self@, samples) && is_coherent_sum(*k, field.u@, samples, s);
            assert(is_coherent_sum(*k, field.u@, samples, s));
            assert(is_product_added(*k, square, s.1, s.1, p));
            assert(is_focal_power(*k, field.u@, samples, p));
        }
        p
    }

    /// Integral of the modulus over the pupil.
    pub fn incoherent_sum<K: Pupil + Optics<Real = R>>(&self, k: &K, field: &Field<R, K::Complex>) -> (s:
        R)
        requires
            self@.valid(),
            is_on(self@, *field),
        ensures
            exists|samples: Seq<(usize, usize)>| #[trigger]
                is_pupil_of(*k, self@, samples) && is_incoherent_sum(*k, field.u@, samples, s),
    {
        let samples: Vec<(usize, usize)> = self.samples(k);
        let u: &Plane<K::Complex> = &field.u;
        let step = |s: R, j: usize, i: usize| -> (next: R)
            requires
                u.wf(),
                j < u@.len(),
                i < u.spec_width(),
            ensures
                exists|a: R| #[trigger]
                    call_ensures(K::modulus, (k, u@[j as int][i as int]), a) && call_ensures(
                        K::plus,
                        (k, s, a),
                        next,
                    ),
            {
                let a: R = k.modulus(*u.at(j, i));
                k.plus(s, a)
            };
        let zero: R = k.zero();
        let sum: R = walk(samples.as_slice(), zero, step);
        let s: R = k.area_integral(sum);
        proof {
            lemma_walk_widens(
                samples@,
                zero,
                walk_steps_of(step),
                adds_moduli(*k, field.u@),
                sum,
            );
            assert(is_pupil_of(*k, self@, samples@));
            assert(is_incoherent_sum(*k, field.u@, samples@, s));
        }
        s
    }

    /// Peak focal intensity relative to a reference beam through the same
    /// aperture.
    pub fn focal_intensity_ratio<K: Pupil + Optics<Real = R>>(
        &self,
        k: &K,
        field: &Field<R, K::Complex>,
        reference: &Field<R, K::Complex>,
    ) -> (r: Result<R, ApertureError<K::Real>>)
        requires
            self@.valid(),
            is_on(self@, *field),
            is_on(self@, *reference),
        ensures
            exists|samples: Seq<(usize, usize)>, again: Seq<(usize, usize)>|
                {
                    &&& #[trigger] is_pupil_of(*k, self@, samples)
                    &&& #[trigger] is_pupil_of(*k, self@, again)
                    &&& is_intensity_ratio(*k, field.u@, reference.u@, samples, again, r)
                },
    {
        let denom: R = self.focal_power(k, reference);
        let ghost samples = choose|samples: Seq<(usize, usize)>| #[trigger]
            is_pupil_of(*k, self@, samples) && is_focal_power(*k, reference.u@, samples, denom);
        proof {
            assert(is_focal_power(*k, reference.u@, samples, denom));
        }
        if !k.is_positive(denom) {
            proof {
                assert(is_intensity_ratio(
                    *k,
                    field.u@,
                    reference.u@,
                    samples,
                    samples,
                    Err(ApertureError::NoReferencePower),
                ));
            }
            return Err(ApertureError::NoReferencePower);
        }
        let p: R = self.focal_power(k, field);
        let q: R = k.ratio(p, denom);
        proof {
            let again = choose|again: Seq<(usize, usize)>| #[trigger]
                is_pupil_of(*k, self@, again) && is_focal_power(*k, field.u@, again, p);
            assert(is_focal_power(*k, field.u@, again, p));
            assert(is_power_over(*k, field.u@, again, denom, q));
            assert(is_intensity_ratio(*k, field.u@, reference.u@, samples, again, Ok(q)));
        }
        Ok(q)
    }

    /// Focal intensity relative to what the beam's own amplitude could do with a
    /// flat phase.
    pub fn phase_only_strehl<K: Pupil + Optics<Real = R>>(
        &self,
        k: &K,
        field: &Field<R, K::Complex>,
    ) -> (r: Result<R, ApertureError<K::Real>>)
        requires
            self@.valid(),
            is_on(self@, *field),
        ensures
            exists|samples: Seq<(usize, usize)>, again: Seq<(usize, usize)>|
                {
                    &&& #[trigger] is_pupil_of(*k, self@, samples)
                    &&& #[trigger] is_pupil_of(*k, self@, again)
                    &&& is_strehl(*k, field.u@, samples, again, r)
                },
    {
        let best: R = self.incoherent_sum(k, field);
        let ghost samples = choose|samples: Seq<(usize, usize)>| #[trigger]
            is_pupil_of(*k, self@, samples) && is_incoherent_sum(*k, field.u@, samples, best);
        proof {
            assert(is_incoherent_sum(*k, field.u@, samples, best));
        }
        if !k.is_positive(best) {
            proof {
                assert(is_strehl(*k, field.u@, samples, samples, Err(ApertureError::NoPower)));
            }
            return Err(ApertureError::NoPower);
        }
        let p: R = self.focal_power(k, field);
        let square: R = k.times(best, best);
        let q: R = k.ratio(p, square);
        proof {
            let again = choose|again: Seq<(usize, usize)>| #[trigger]
                is_pupil_of(*k, self@, again) && is_focal_power(*k, field.u@, again, p);
            assert(is_focal_power(*k, field.u@, again, p));
            assert(is_power_over(*k, field.u@, again, square, q));
            assert(is_power_over_square(*k, field.u@, again, best, q));
            assert(is_strehl(*k, field.u@, samples, again, Ok(q)));
        }
        Ok(q)
    }

    /// Moments of a phase over some samples.
    fn moments<K: Pupil + Optics<Real = R>>(
        &self,
        k: &K,
        phase: &Plane<R>,
        samples: &[(usize, usize)],
    ) -> (m: Moments<R>)
        requires
            self@.valid(),
            phase.wf(),
            phase@.len() == self@.grid.n,
            phase.spec_width() == self@.grid.n,
            forall|m: int|
                0 <= m < samples@.len() ==> (#[trigger] samples@[m]).0 < self@.grid.n
                    && samples@[m].1 < self@.grid.n,
        ensures
            are_moments(*k, self@.grid.n as int, phase@, samples@, m),
    {
        let grid: Grid<R> = self.grid;
        let ghost n = grid.n as int;
        let step = |s: Moments<R>, j: usize, i: usize| -> (next: Moments<R>)
            requires
                phase.wf(),
                grid.n <= isize::MAX,
                j < grid.n,
                i < grid.n,
                phase@.len() == grid.n,
                phase.spec_width() == grid.n,
            ensures
                exists|x: R, y: R| #[trigger]
                    is_placed(*k, grid.n as int, (j, i), x, y) && is_moment_added(
                        *k,
                        s,
                        x,
                        y,
                        phase@[j as int][i as int],
                        next,
                    ),
            {
                add_moment(k, &grid, phase, s, j, i)
            };
        let none: Moments<R> = Moments {
            x: k.zero(),
            y: k.zero(),
            xx: k.zero(),
            yy: k.zero(),
            xy: k.zero(),
            p: k.zero(),
            xp: k.zero(),
            yp: k.zero(),
        };
        let m: Moments<R> = walk(samples, none, step);
        proof {
            lemma_walk_widens(
                samples@,
                none,
                walk_steps_of(step),
                adds_moments(*k, n, phase@),
                m,
            );
            assert(are_no_moments(*k, none));
        }
        m
    }

    /// Least-squares plane through a phase over some samples, by the full normal
    /// equations.
    fn fit_plane<K: Pupil + Optics<Real = R>>(
        &self,
        k: &K,
        phase: &Plane<R>,
        samples: &[(usize, usize)],
    ) -> (r: Result<Fit<R>, ApertureError<K::Real>>)
        requires
            self@.valid(),
            forall|m: int|
                0 <= m < samples@.len() ==> (#[trigger] samples@[m]).0 < self@.grid.n
                    && samples@[m].1 < self@.grid.n,
        ensures
            is_plane_fit(*k, self@.grid.n as int, *phase, samples@, r),
    {
        if !phase.has_shape(self.grid.n, self.grid.n) {
            return Err(ApertureError::PhaseShape);
        }
        if samples.len() < 3 {
            return Err(ApertureError::TooFewSamples { samples: samples.len() });
        }
        let ghost n = self@.grid.n as int;
        let s: Moments<R> = self.moments(k, phase, samples);
        let count: R = k.count(samples.len());
        let m: [[R; 3]; 3] = [[count, s.x, s.y], [s.x, s.xx, s.xy], [s.y, s.xy, s.yy]];
        let rhs: [R; 3] = [s.p, s.xp, s.yp];
        let det: R = k.determinant(m);
        let ghost sys = NormalSystem { count, matrix: m, rhs, det };
        proof {
            assert(is_normal_matrix(count, s, m));
            assert(is_normal_system(*k, n, phase@, samples@, sys));
        }
        if k.is_singular(det) {
            return Err(ApertureError::Singular);
        }
        let a: R = solve(k, m, rhs, det, 0);
        let b: R = solve(k, m, rhs, det, 1);
        let c: R = solve(k, m, rhs, det, 2);
        let fit: Fit<R> = Fit { plane: (a, b, c), count };
        proof {
            assert(is_solved(*k, sys, fit));
        }
        Ok(fit)
    }

    /// Mean of a phase over some samples, as a level plane.
    fn piston<K: Pupil + Optics<Real = R>>(
        &self,
        k: &K,
        phase: &Plane<R>,
        samples: &[(usize, usize)],
    ) -> (fit: Fit<R>)
        requires
            self@.valid(),
            phase.wf(),
            phase@.len() == self@.grid.n,
            phase.spec_width() == self@.grid.n,
            forall|m: int|
                0 <= m < samples@.len() ==> (#[trigger] samples@[m]).0 < self@.grid.n
                    && samples@[m].1 < self@.grid.n,
        ensures
            is_piston(*k, phase@, samples@, fit),
    {
        let step = |s: R, j: usize, i: usize| -> (next: R)
            requires
                phase.wf(),
                j < phase@.len(),
                i < phase.spec_width(),
            ensures
                call_ensures(K::plus, (k, s, phase@[j as int][i as int]), next),
            { k.plus(s, *phase.at(j, i)) };
        let zero: R = k.zero();
        let sum: R = walk(samples, zero, step);
        let count: R = k.count(samples.len());
        let mean: R = k.ratio(sum, count);
        let level_x: R = k.zero();
        let level_y: R = k.zero();
        proof {
            lemma_walk_widens(samples@, zero, walk_steps_of(step), adds_phase(*k, phase@), sum);
        }
        Fit { plane: (mean, level_x, level_y), count }
    }

    /// Mean squared residual of a phase about a fit.
    fn variance<K: Pupil + Optics<Real = R>>(
        &self,
        k: &K,
        phase: &Plane<R>,
        samples: &[(usize, usize)],
        fit: &Fit<R>,
    ) -> (v: R)
        requires
            self@.valid(),
            phase.wf(),
            phase@.len() == self@.grid.n,
            phase.spec_width() == self@.grid.n,
            forall|m: int|
                0 <= m < samples@.len() ==> (#[trigger] samples@[m]).0 < self@.grid.n
                    && samples@[m].1 < self@.grid.n,
        ensures
            is_variance(*k, self@.grid.n as int, phase@, samples@, *fit, v),
    {
        let grid: Grid<R> = self.grid;
        let ghost n = grid.n as int;
        let plane: (R, R, R) = fit.plane;
        let step = |s: R, j: usize, i: usize| -> (next: R)
            requires
                phase.wf(),
                grid.n <= isize::MAX,
                j < grid.n,
                i < grid.n,
                phase@.len() == grid.n,
                phase.spec_width() == grid.n,
            ensures
                exists|x: R, y: R, r: R|
                    {
                        &&& #[trigger] is_placed(*k, grid.n as int, (j, i), x, y)
                        &&& #[trigger] call_ensures(
                            K::residual,
                            (k, phase@[j as int][i as int], plane, x, y),
                            r,
                        )
                        &&& is_product_added(*k, s, r, r, next)
                    },
            {
                add_residual(k, &grid, phase, plane, s, j, i)
            };
        let zero: R = k.zero();
        let sum: R = walk(samples, zero, step);
        let v: R = k.ratio(sum, fit.count);
        proof {
            lemma_walk_widens(
                samples@,
                zero,
                walk_steps_of(step),
                adds_residuals(*k, n, phase@, fit.plane),
                sum,
            );
        }
        v
    }

    /// Residual variance of a phase over the pupil, after the terms that `mode`
    /// names are projected out.
    pub fn residual_phase_variance<K: Pupil + Optics<Real = R>>(
        &self,
        k: &K,
        phase: &Plane<R>,
        mode: TiltRemoval,
    ) -> (r: Result<R, ApertureError<K::Real>>)
        requires
            self@.valid(),
        ensures
            exists|samples: Seq<(usize, usize)>| #[trigger]
                is_pupil_of(*k, self@, samples) && is_residual_variance(
                    *k,
                    self@.grid.n as int,
                    *phase,
                    mode,
                    samples,
                    r,
                ),
    {
        let samples: Vec<(usize, usize)> = self.samples(k);
        let ghost n = self@.grid.n as int;
        proof {
            assert(is_pupil_of(*k, self@, samples@));
        }
        if !phase.has_shape(self.grid.n, self.grid.n) {
            return Err(ApertureError::PhaseShape);
        }
        let fit: Fit<R> = match mode {
            TiltRemoval::PistonOnly => {
                if samples.len() == 0 {
                    return Err(ApertureError::NoSamples);
                }
                self.piston(k, phase, samples.as_slice())
            },
            TiltRemoval::PistonTipTilt => match self.fit_plane(k, phase, samples.as_slice()) {
                Ok(fit) => fit,
                Err(e) => {
                    return Err(e);
                },
            },
        };
        let v: R = self.variance(k, phase, samples.as_slice(), &fit);
        proof {
            match mode {
                TiltRemoval::PistonOnly => {
                    assert(is_piston(*k, phase@, samples@, fit));
                },
                TiltRemoval::PistonTipTilt => {
                    assert(is_plane_fit(*k, n, *phase, samples@, Ok(fit)));
                },
            }
            assert(is_residual_variance(*k, n, *phase, mode, samples@, Ok(v)));
        }
        Ok(v)
    }

    /// Mean wavefront tilt of a phase over the pupil, as a pair of angles.
    pub fn mean_tilt<K: Pupil + Optics<Real = R>>(
        &self,
        k: &K,
        phase: &Plane<R>,
        wavelength: R,
    ) -> (r: Result<(R, R), ApertureError<K::Real>>)
        requires
            self@.valid(),
        ensures
            is_tilt_of_phase(*k, self@, *phase, wavelength, r),
    {
        let samples: Vec<(usize, usize)> = self.samples(k);
        let ghost n = self@.grid.n as int;
        proof {
            assert(is_pupil_of(*k, self@, samples@));
        }
        if !k.is_positive(wavelength) {
            return Err(ApertureError::BadWavelength);
        }
        match self.fit_plane(k, phase, samples.as_slice()) {
            Err(e) => Err(e),
            Ok(fit) => {
                let wave: R = k.wavenumber_of(wavelength);
                let tx: R = k.ratio(fit.plane.1, wave);
                let ty: R = k.ratio(fit.plane.2, wave);
                proof {
                    assert(is_plane_fit(*k, n, *phase, samples@, Ok(fit)));
                    assert(is_mean_tilt(*k, n, *phase, wavelength, samples@, Ok((tx, ty))));
                }
                Ok((tx, ty))
            },
        }
    }

    /// Displacement of the focal spot that the mean tilt of a phase causes.
    pub fn focal_wander<K: Pupil + Optics<Real = R>>(
        &self,
        k: &K,
        phase: &Plane<R>,
        wavelength: R,
        focal_length: R,
    ) -> (r: Result<(R, R), ApertureError<K::Real>>)
        requires
            self@.valid(),
        ensures
            match r {
                Err(ApertureError::BadFocalLength) => {
                    call_ensures(K::is_positive, (k, focal_length), false)
                },
                Err(e) => call_ensures(K::is_positive, (k, focal_length), true) && is_tilt_of_phase(
                    *k,
                    self@,
                    *phase,
                    wavelength,
                    Err(e),
                ),
                Ok(w) => call_ensures(K::is_positive, (k, focal_length), true)
                    && exists|t: (R, R)| #[trigger]
                    is_tilt_of_phase(*k, self@, *phase, wavelength, Ok(t)) && is_wander(
                        *k,
                        focal_length,
                        t,
                        w,
                    ),
            },
    {
        if !k.is_positive(focal_length) {
            return Err(ApertureError::BadFocalLength);
        }
        let found: Result<(R, R), ApertureError<K::Real>> = self.mean_tilt(k, phase, wavelength);
        match found {
            Err(e) => {
                proof {
                    let samples = choose|samples: Seq<(usize, usize)>| #[trigger]
                        is_pupil_of(*k, self@, samples) && is_mean_tilt(
                            *k,
                            self@.grid.n as int,
                            *phase,
                            wavelength,
                            samples,
                            Err(e),
                        );
                    assert(is_mean_tilt(
                        *k,
                        self@.grid.n as int,
                        *phase,
                        wavelength,
                        samples,
                        Err(e),
                    ));
                }
                Err(e)
            },
            Ok(t) => {
                let x: R = k.times(focal_length, t.0);
                let y: R = k.times(focal_length, t.1);
                proof {
                    assert(is_tilt_of_phase(*k, self@, *phase, wavelength, Ok(t)));
                    assert(is_wander(*k, focal_length, t, (x, y)));
                }
                Ok((x, y))
            },
        }
    }

    /// Phase flow of a field over some samples.
    fn flow<K: Pupil + Optics<Real = R>>(
        &self,
        k: &K,
        field: &Field<R, K::Complex>,
        samples: &[(usize, usize)],
    ) -> (f: Flow<R>)
        requires
            self@.valid(),
            is_on(self@, *field),
            forall|m: int|
                0 <= m < samples@.len() ==> (#[trigger] samples@[m]).0 < self@.grid.n
                    && samples@[m].1 < self@.grid.n,
        ensures
            is_flow(*k, self@.grid.n as int, field.u@, samples@, f),
    {
        let n: usize = self.grid.n;
        let u: &Plane<K::Complex> = &field.u;
        let step = |s: Flow<R>, j: usize, i: usize| -> (next: Flow<R>)
            requires
                u.wf(),
                u@.len() == n,
                u.spec_width() == n,
                j < n,
                i < n,
            ensures
                if has_neighbours(n as int, (j, i)) {
                    is_flow_added(*k, u@, j as int, i as int, s, next)
                } else {
                    next == s
                },
            {
                if i == 0 || j == 0 || i >= n - 1 || j >= n - 1 {
                    s
                } else {
                    let c: K::Complex = *u.at(j, i);
                    let fx: R = k.flow(c, *u.at(j, i - 1), *u.at(j, i + 1));
                    let fy: R = k.flow(c, *u.at(j - 1, i), *u.at(j + 1, i));
                    let w: R = k.intensity(c);
                    Flow { x: k.plus(s.x, fx), y: k.plus(s.y, fy), weight: k.plus(s.weight, w) }
                }
            };
        let none: Flow<R> = Flow { x: k.zero(), y: k.zero(), weight: k.zero() };
        let f: Flow<R> = walk(samples, none, step);
        proof {
            lemma_walk_widens(
                samples@,
                none,
                walk_steps_of(step),
                adds_flow(*k, n as int, field.u@),
                f,
            );
            assert(is_no_flow(*k, none));
        }
        f
    }

    /// Intensity-weighted mean wavefront tilt of a field over the pupil, as a
    /// pair of angles. Samples without a neighbour on every side are passed
    /// over.
    pub fn mean_tilt_of_field<K: Pupil + Optics<Real = R>>(
        &self,
        k: &K,
        field: &Field<R, K::Complex>,
        wavelength: R,
    ) -> (r: Result<(R, R), ApertureError<K::Real>>)
        requires
            self@.valid(),
            field.valid(),
        ensures
            is_tilt_of_field(*k, self@, *field, wavelength, r),
    {
        let samples: Vec<(usize, usize)> = self.samples(k);
        let ghost n = self@.grid.n as int;
        proof {
            assert(is_pupil_of(*k, self@, samples@));
        }
        if !k.is_positive(wavelength) {
            return Err(ApertureError::BadWavelength);
        }
        if field.grid.n != self.grid.n {
            return Err(ApertureError::GridMismatch);
        }
        let f: Flow<R> = self.flow(k, field, samples.as_slice());
        proof {
            assert(is_flow(*k, n, field.u@, samples@, f));
        }
        if !k.is_positive(f.weight) {
            return Err(ApertureError::NoPower);
        }
        let wave: R = k.wavenumber_of(wavelength);
        let gx: R = k.ratio(f.x, f.weight);
        let gy: R = k.ratio(f.y, f.weight);
        let tx: R = k.ratio(gx, wave);
        let ty: R = k.ratio(gy, wave);
        proof {
            assert(is_tilt(*k, f.x, f.weight, wave, tx));
            assert(is_tilt(*k, f.y, f.weight, wave, ty));
            assert(is_field_tilt(*k, n, *field, wavelength, samples@, Ok((tx, ty))));
        }
        Ok((tx, ty))
    }

    /// Displacement of the focal spot of a field.
    pub fn focal_wander_of_field<K: Pupil + Optics<Real = R>>(
        &self,
        k: &K,
        field: &Field<R, K::Complex>,
        wavelength: R,
        focal_length: R,
    ) -> (r: Result<(R, R), ApertureError<K::Real>>)
        requires
            self@.valid(),
            field.valid(),
        ensures
            match r {
                Err(ApertureError::BadFocalLength) => {
                    call_ensures(K::is_positive, (k, focal_length), false)
                },
                Err(e) => call_ensures(K::is_positive, (k, focal_length), true) && is_tilt_of_field(
                    *k,
                    self@,
                    *field,
                    wavelength,
                    Err(e),
                ),
                Ok(w) => call_ensures(K::is_positive, (k, focal_length), true)
                    && exists|t: (R, R)| #[trigger]
                    is_tilt_of_field(*k, self@, *field, wavelength, Ok(t)) && is_wander(
                        *k,
                        focal_length,
                        t,
                        w,
                    ),
            },
    {
        if !k.is_positive(focal_length) {
            return Err(ApertureError::BadFocalLength);
        }
        let found: Result<(R, R), ApertureError<K::Real>> = self.mean_tilt_of_field(k, field, wavelength);
        match found {
            Err(e) => {
                proof {
                    let samples = choose|samples: Seq<(usize, usize)>| #[trigger]
                        is_pupil_of(*k, self@, samples) && is_field_tilt(
                            *k,
                            self@.grid.n as int,
                            *field,
                            wavelength,
                            samples,
                            Err(e),
                        );
                    assert(is_field_tilt(
                        *k,
                        self@.grid.n as int,
                        *field,
                        wavelength,
                        samples,
                        Err(e),
                    ));
                }
                Err(e)
            },
            Ok(t) => {
                let x: R = k.times(focal_length, t.0);
                let y: R = k.times(focal_length, t.1);
                proof {
                    assert(is_tilt_of_field(*k, self@, *field, wavelength, Ok(t)));
                    assert(is_wander(*k, focal_length, t, (x, y)));
                }
                Ok((x, y))
            },
        }
    }
}

/// Moments with a sample added.
fn add_moment<K: Pupil>(
    k: &K,
    grid: &Grid<K::Real>,
    phase: &Plane<K::Real>,
    s: Moments<K::Real>,
    j: usize,
    i: usize,
) -> (next: Moments<K::Real>)
    requires
        phase.wf(),
        grid.n <= isize::MAX,
        j < grid.n,
        i < grid.n,
        phase@.len() == grid.n,
        phase.spec_width() == grid.n,
    ensures
        exists|x: K::Real, y: K::Real| #[trigger]
            is_placed(*k, grid.n as int, (j, i), x, y) && is_moment_added(
                *k,
                s,
                x,
                y,
                phase@[j as int][i as int],
                next,
            ),
{
    let x: K::Real = k.coordinate(grid.offset(i));
    let y: K::Real = k.coordinate(grid.offset(j));
    let p: K::Real = *phase.at(j, i);
    proof {
        assert(is_placed(*k, grid.n as int, (j, i), x, y));
    }
    Moments {
        x: k.plus(s.x, x),
        y: k.plus(s.y, y),
        xx: add_product(k, s.xx, x, x),
        yy: add_product(k, s.yy, y, y),
        xy: add_product(k, s.xy, x, y),
        p: k.plus(s.p, p),
        xp: add_product(k, s.xp, x, p),
        yp: add_product(k, s.yp, y, p),
    }
}

/// Squared residuals about a plane with a sample added.
fn add_residual<K: Pupil>(
    k: &K,
    grid: &Grid<K::Real>,
    phase: &Plane<K::Real>,
    plane: (K::Real, K::Real, K::Real),
    s: K::Real,
    j: usize,
    i: usize,
) -> (next: K::Real)
    requires
        phase.wf(),
        grid.n <= isize::MAX,
        j < grid.n,
        i < grid.n,
        phase@.len() == grid.n,
        phase.spec_width() == grid.n,
    ensures
        exists|x: K::Real, y: K::Real, r: K::Real|
            {
                &&& #[trigger] is_placed(*k, grid.n as int, (j, i), x, y)
                &&& #[trigger] call_ensures(
                    K::residual,
                    (k, phase@[j as int][i as int], plane, x, y),
                    r,
                )
                &&& is_product_added(*k, s, r, r, next)
            },
{
    let x: K::Real = k.coordinate(grid.offset(i));
    let y: K::Real = k.coordinate(grid.offset(j));
    let r: K::Real = k.residual(*phase.at(j, i), plane, x, y);
    proof {
        assert(is_placed(*k, grid.n as int, (j, i), x, y));
    }
    add_product(k, s, r, r)
}

/// A sum with a product added.
fn add_product<K: Pupil>(k: &K, before: K::Real, a: K::Real, b: K::Real) -> (after: K::Real)
    ensures
        is_product_added(*k, before, a, b, after),
{
    let q: K::Real = k.times(a, b);
    k.plus(before, q)
}

/// Whether a sample is inside a disc does not depend on when it is asked.
pub open spec fn is_steady<K: Pupil>(k: K, n: int, diameter: K::Real) -> bool {
    forall|j: int, i: int, a: bool, b: bool|
        #[trigger] is_found(k, n, diameter, j, i, a) && #[trigger] is_found(
            k,
            n,
            diameter,
            j,
            i,
            b,
        ) ==> a == b
}

/// The walk of the bounding box visits what a walk of the whole grid would: if
/// no sample outside the box is inside the disc, the pupil of the box is the
/// pupil of the grid.
pub proof fn law_box_walk_is_the_full_walk<K: Pupil>(
    k: K,
    d: Disc<K::Real>,
    samples: Seq<(usize, usize)>,
)
    requires
        d.valid(),
        is_pupil_of(k, d, samples),
        forall|j: int, i: int|
            0 <= j < d.grid.n && 0 <= i < d.grid.n && !(d.lo <= j <= d.hi && d.lo <= i <= d.hi)
                ==> #[trigger] is_found(k, d.grid.n as int, d.diameter, j, i, false),
    ensures
        is_pupil(k, d.grid.n as int, d.diameter, 0, d.grid.n - 1, samples),
{
    let n = d.grid.n as int;
    assert forall|p: (usize, usize)|
        in_box(0, n - 1, p) && !#[trigger] samples.contains(p) implies is_found(
        k,
        n,
        d.diameter,
        p.0 as int,
        p.1 as int,
        false,
    ) by {
        if !in_box(d.lo as int, d.hi as int, p) {
            assert(is_found(k, n, d.diameter, p.0 as int, p.1 as int, false));
        }
    }
}

/// A disc has one pupil: two walks of the same box visit the same samples in
/// the same order.
pub proof fn law_pupil_is_unique<K: Pupil>(
    k: K,
    n: int,
    diameter: K::Real,
    lo: int,
    hi: int,
    a: Seq<(usize, usize)>,
    b: Seq<(usize, usize)>,
)
    requires
        is_pupil(k, n, diameter, lo, hi, a),
        is_pupil(k, n, diameter, lo, hi, b),
        is_steady(k, n, diameter),
    ensures
        a == b,
{
    lemma_pupil_holds(k, n, diameter, lo, hi, a, b);
    lemma_pupil_holds(k, n, diameter, lo, hi, b, a);
    if a.len() <= b.len() {
        lemma_sorted_agree(a, b, a.len() as int);
        if a.len() < b.len() {
            let p = b[a.len() as int];
            assert(b.contains(p));
            let m = choose|m: int| 0 <= m < a.len() && a[m] == p;
            assert(b[m] == p);
            assert(precedes(b[m], b[a.len() as int]));
        }
    } else {
        lemma_sorted_agree(b, a, b.len() as int);
        let p = a[b.len() as int];
        assert(a.contains(p));
        let m = choose|m: int| 0 <= m < b.len() && b[m] == p;
        assert(a[m] == p);
        assert(precedes(a[m], a[b.len() as int]));
    }
    assert(a =~= b);
}

/// What one walk visits, another visits too.
proof fn lemma_pupil_holds<K: Pupil>(
    k: K,
    n: int,
    diameter: K::Real,
    lo: int,
    hi: int,
    a: Seq<(usize, usize)>,
    b: Seq<(usize, usize)>,
)
    requires
        is_pupil(k, n, diameter, lo, hi, a),
        is_pupil(k, n, diameter, lo, hi, b),
        is_steady(k, n, diameter),
    ensures
        forall|p: (usize, usize)| #[trigger] a.contains(p) ==> b.contains(p),
{
    assert forall|p: (usize, usize)| #[trigger] a.contains(p) implies b.contains(p) by {
        let m = choose|m: int| 0 <= m < a.len() && a[m] == p;
        assert(is_found(k, n, diameter, a[m].0 as int, a[m].1 as int, true));
        if !b.contains(p) {
            assert(is_found(k, n, diameter, p.0 as int, p.1 as int, false));
        }
    }
}

/// Two ordered sequences with the same entries agree as far as the shorter goes.
proof fn lemma_sorted_agree(a: Seq<(usize, usize)>, b: Seq<(usize, usize)>, m: int)
    requires
        0 <= m <= a.len() <= b.len(),
        forall|i: int, j: int|
            0 <= i < j < a.len() ==> precedes(#[trigger] a[i], #[trigger] a[j]),
        forall|i: int, j: int|
            0 <= i < j < b.len() ==> precedes(#[trigger] b[i], #[trigger] b[j]),
        forall|p: (usize, usize)| #[trigger] a.contains(p) ==> b.contains(p),
        forall|p: (usize, usize)| #[trigger] b.contains(p) ==> a.contains(p),
    ensures
        forall|i: int| 0 <= i < m ==> #[trigger] a[i] == b[i],
    decreases m,
{
    if m > 0 {
        lemma_sorted_agree(a, b, m - 1);
        let i = m - 1;
        assert(a.contains(a[i]));
        let l = choose|l: int| 0 <= l < b.len() && b[l] == a[i];
        assert(b.contains(b[i]));
        let h = choose|h: int| 0 <= h < a.len() && a[h] == b[i];
        if l < i {
            assert(a[l] == b[l]);
            assert(precedes(a[l], a[i]));
        }
        if h < i {
            assert(a[h] == b[h]);
            assert(precedes(b[h], b[i]));
        }
        if l > i && h > i {
            assert(precedes(b[i], b[l]));
            assert(precedes(a[i], a[h]));
        }
    }
}

/// Amplitudes and their sums are exact in a measure: sums add, products multiply, an
/// integral is a sum times the area of a sample, and a modulus is the length of its
/// amplitude.
#[verifier::reject_recursive_types(R)]
#[verifier::reject_recursive_types(C)]
pub struct Phasors<R, C> {
    pub size: spec_fn(R) -> real,
    pub re: spec_fn(C) -> real,
    pub im: spec_fn(C) -> real,
    /// Area of a sample.
    pub area: real,
}

pub open spec fn are_exact<K: Pupil>(k: K, m: Phasors<K::Real, K::Complex>) -> bool {
    &&& m.area > 0real
    &&& forall|zero: K::Real| #[trigger]
        call_ensures(K::zero, (&k,), zero) ==> (m.size)(zero) == 0real
    &&& forall|a: K::Real, b: K::Real, c: K::Real| #[trigger]
        call_ensures(K::plus, (&k, a, b), c) ==> (m.size)(c) == (m.size)(a) + (m.size)(b)
    &&& forall|a: K::Real, b: K::Real, c: K::Real| #[trigger]
        call_ensures(K::times, (&k, a, b), c) ==> (m.size)(c) == (m.size)(a) * (m.size)(b)
    &&& forall|a: K::Real, b: K::Real, c: K::Real| #[trigger]
        call_ensures(K::ratio, (&k, a, b), c) && (m.size)(b) != 0real ==> (m.size)(c) * (m.size)(b)
            == (m.size)(a)
    &&& forall|a: K::Real, r: bool| #[trigger]
        call_ensures(K::is_positive, (&k, a), r) ==> r == ((m.size)(a) > 0real)
    &&& forall|u: K::Complex| #[trigger]
        call_ensures(K::dark, (&k,), u) ==> (m.re)(u) == 0real && (m.im)(u) == 0real
    &&& forall|a: K::Complex, b: K::Complex, c: K::Complex| #[trigger]
        call_ensures(K::superpose, (&k, a, b), c) ==> (m.re)(c) == (m.re)(a) + (m.re)(b) && (m.im)(
            c,
        ) == (m.im)(a) + (m.im)(b)
    &&& forall|u: K::Complex, a: K::Real| #[trigger]
        call_ensures(K::modulus, (&k, u), a) ==> (m.size)(a) >= 0real && (m.re)(u) * (m.re)(u) + (
        m.im)(u) * (m.im)(u) == (m.size)(a) * (m.size)(a)
    &&& forall|u: K::Complex, s: (K::Real, K::Real)| #[trigger]
        call_ensures(K::amplitude_integral, (&k, u), s) ==> (m.size)(s.0) == m.area * (m.re)(u)
            && (m.size)(s.1) == m.area * (m.im)(u)
    &&& forall|a: K::Real, b: K::Real| #[trigger]
        call_ensures(K::area_integral, (&k, a), b) ==> (m.size)(b) == m.area * (m.size)(a)
}

/// The squares of two complex numbers and of their product.
proof fn lemma_product_squares(x: real, y: real, r: real, i: real)
    ensures
        (x * r + y * i) * (x * r + y * i) + (x * i - y * r) * (x * i - y * r) == (x * x + y * y) * (r
            * r + i * i),
        (x * r - y * i) * (x * r - y * i) + (x * i + y * r) * (x * i + y * r) == (x * x + y * y) * (r
            * r + i * i),
{
    lemma_square_of_sum(x * r, y * i);
    lemma_square_of_sum(x * i, y * r);
    lemma_regroups(x, r, x, r);
    lemma_regroups(y, i, y, i);
    lemma_regroups(x, i, x, i);
    lemma_regroups(y, r, y, r);
    lemma_regroups(x, r, y, i);
    lemma_regroups(x, i, y, r);
    lemma_commutes(r, i);
    lemma_distributes(x * x, y * y, r * r + i * i);
    lemma_distributes(r * r, i * i, x * x);
    lemma_distributes(r * r, i * i, y * y);
}

/// The triangle inequality, squared: a sum is no longer than its parts.
proof fn lemma_triangle(x: real, y: real, m: real, r: real, i: real, a: real)
    requires
        m >= 0real,
        a >= 0real,
        x * x + y * y <= m * m,
        r * r + i * i == a * a,
    ensures
        (x + r) * (x + r) + (y + i) * (y + i) <= (m + a) * (m + a),
{
    let dot = x * r + y * i;
    let cross = x * i - y * r;
    let top = m * a;
    lemma_product_squares(x, y, r, i);
    lemma_square_is_not_negative(cross);
    lemma_square_is_not_negative(a);
    lemma_keeps_order(x * x + y * y, m * m, a * a);
    lemma_regroups(m, a, m, a);
    lemma_keeps_order(0real, m, a);
    assert(0real * a == 0real);
    lemma_roots_order(dot, top);
    lemma_square_of_sum(x, r);
    lemma_square_of_sum(y, i);
    lemma_square_of_sum(m, a);
}

proof fn lemma_sums_are_ordered<K: Pupil>(
    k: K,
    u: Seq<Seq<K::Complex>>,
    samples: Seq<(usize, usize)>,
    sums: Seq<K::Complex>,
    moduli: Seq<K::Real>,
    m: Phasors<K::Real, K::Complex>,
    i: int,
)
    requires
        are_exact(k, m),
        is_walk_run(samples, sums[0], superposes(k, u), sums),
        is_walk_run(samples, moduli[0], adds_moduli(k, u), moduli),
        call_ensures(K::dark, (&k,), sums[0]),
        call_ensures(K::zero, (&k,), moduli[0]),
        0 <= i <= samples.len(),
    ensures
        (m.size)(moduli[i]) >= 0real,
        (m.re)(sums[i]) * (m.re)(sums[i]) + (m.im)(sums[i]) * (m.im)(sums[i]) <= (m.size)(
            moduli[i],
        ) * (m.size)(moduli[i]),
    decreases i,
{
    if i > 0 {
        let j = i - 1;
        lemma_sums_are_ordered(k, u, samples, sums, moduli, m, j);
        let s = samples[j];
        let c = u[s.0 as int][s.1 as int];
        assert(superposes(k, u)(sums[j], s, sums[j + 1]));
        assert(adds_moduli(k, u)(moduli[j], s, moduli[j + 1]));
        let a = choose|a: K::Real| #[trigger]
            call_ensures(K::modulus, (&k, c), a) && call_ensures(
                K::plus,
                (&k, moduli[j], a),
                moduli[j + 1],
            );
        lemma_triangle(
            (m.re)(sums[j]),
            (m.im)(sums[j]),
            (m.size)(moduli[j]),
            (m.re)(c),
            (m.im)(c),
            (m.size)(a),
        );
    } else {
        assert(0real * 0real == 0real);
    }
}

/// The Strehl ratio is a quotient of a coherent by an incoherent sum of the same
/// amplitudes: the sums, and the integrals that the quotient is taken of.
proof fn lemma_strehl_sums<K: Pupil>(
    k: K,
    u: Seq<Seq<K::Complex>>,
    samples: Seq<(usize, usize)>,
    q: K::Real,
    m: Phasors<K::Real, K::Complex>,
) -> (r: (Seq<K::Complex>, Seq<K::Real>, K::Real, K::Real))
    requires
        is_strehl(k, u, samples, samples, Ok(q)),
        are_exact(k, m),
    ensures
        ({
            let (sums, moduli, p, square) = r;
            let (x, y, s) = ((m.re)(sums.last()), (m.im)(sums.last()), (m.size)(moduli.last()));
            &&& is_walk_run(samples, sums[0], superposes(k, u), sums)
            &&& is_walk_run(samples, moduli[0], adds_moduli(k, u), moduli)
            &&& call_ensures(K::dark, (&k,), sums[0])
            &&& call_ensures(K::zero, (&k,), moduli[0])
            &&& call_ensures(K::ratio, (&k, p, square), q)
            &&& (m.size)(p) == m.area * m.area * (x * x + y * y)
            &&& (m.size)(square) == m.area * m.area * (s * s)
            &&& (m.size)(square) > 0real
        }),
{
    let best = choose|best: K::Real|
        {
            &&& #[trigger] is_incoherent_sum(k, u, samples, best)
            &&& call_ensures(K::is_positive, (&k, best), true)
            &&& is_power_over_square(k, u, samples, best, q)
        };
    let square = choose|square: K::Real| #[trigger]
        call_ensures(K::times, (&k, best, best), square) && is_power_over(k, u, samples, square, q);
    let p = choose|p: K::Real| #[trigger]
        is_focal_power(k, u, samples, p) && call_ensures(K::ratio, (&k, p, square), q);
    let (s, part) = choose|s: (K::Real, K::Real), part: K::Real|
        {
            &&& #[trigger] is_coherent_sum(k, u, samples, s)
            &&& #[trigger] call_ensures(K::times, (&k, s.0, s.0), part)
            &&& is_product_added(k, part, s.1, s.1, p)
        };
    let (dark, sum) = choose|dark: K::Complex, sum: K::Complex|
        {
            &&& #[trigger] call_ensures(K::dark, (&k,), dark)
            &&& #[trigger] is_walk(samples, dark, superposes(k, u), sum)
            &&& call_ensures(K::amplitude_integral, (&k, sum), s)
        };
    let sums = choose|run: Seq<K::Complex>| #[trigger]
        is_walk_run(samples, dark, superposes(k, u), run) && run.last() == sum;
    let (zero, whole) = choose|zero: K::Real, whole: K::Real|
        {
            &&& #[trigger] call_ensures(K::zero, (&k,), zero)
            &&& #[trigger] is_walk(samples, zero, adds_moduli(k, u), whole)
            &&& call_ensures(K::area_integral, (&k, whole), best)
        };
    let moduli = choose|run: Seq<K::Real>| #[trigger]
        is_walk_run(samples, zero, adds_moduli(k, u), run) && run.last() == whole;
    let other = choose|o: K::Real| #[trigger]
        call_ensures(K::times, (&k, s.1, s.1), o) && call_ensures(K::plus, (&k, part, o), p);
    let (a, x, y, t) = (m.area, (m.re)(sum), (m.im)(sum), (m.size)(whole));
    assert((m.size)(p) == (a * x) * (a * x) + (a * y) * (a * y));
    lemma_regroups(a, x, a, x);
    lemma_regroups(a, y, a, y);
    lemma_distributes(x * x, y * y, a * a);
    assert((m.size)(square) == (a * t) * (a * t));
    lemma_regroups(a, t, a, t);
    lemma_positive((m.size)(best), (m.size)(best));
    (sums, moduli, p, square)
}

/// A Strehl ratio is never above one, whatever the amplitudes are.
pub proof fn law_strehl_is_at_most_one<K: Pupil>(
    k: K,
    u: Seq<Seq<K::Complex>>,
    samples: Seq<(usize, usize)>,
    q: K::Real,
    m: Phasors<K::Real, K::Complex>,
)
    requires
        is_strehl(k, u, samples, samples, Ok(q)),
        are_exact(k, m),
    ensures
        (m.size)(q) <= 1real,
{
    let (sums, moduli, p, square) = lemma_strehl_sums(k, u, samples, q, m);
    lemma_sums_are_ordered(k, u, samples, sums, moduli, m, samples.len() as int);
    let (x, y, s) = ((m.re)(sums.last()), (m.im)(sums.last()), (m.size)(moduli.last()));
    let (a, c, d) = (m.area * m.area, x * x + y * y, s * s);
    lemma_square_is_not_negative(m.area);
    lemma_keeps_order(c, d, a);
    assert(1real * (m.size)(square) == (m.size)(square));
    lemma_reads_order((m.size)(q), 1real, (m.size)(square));
}

/// Every sample of a pupil has the phase of the direction `(x, y)`, of length
/// `length`: its amplitude is so many times that direction.
pub open spec fn is_flat<K: Pupil>(
    k: K,
    u: Seq<Seq<K::Complex>>,
    samples: Seq<(usize, usize)>,
    m: Phasors<K::Real, K::Complex>,
    times: spec_fn(K::Complex) -> real,
    x: real,
    y: real,
    length: real,
) -> bool {
    &&& x * x + y * y == length * length
    &&& forall|i: int|
        #![trigger samples[i]]
        0 <= i < samples.len() ==> {
            let c = u[samples[i].0 as int][samples[i].1 as int];
            &&& (m.re)(c) == times(c) * x
            &&& (m.im)(c) == times(c) * y
            &&& forall|a: K::Real| #[trigger]
                call_ensures(K::modulus, (&k, c), a) ==> (m.size)(a) == times(c) * length
        }
}

proof fn lemma_flat_sums<K: Pupil>(
    k: K,
    u: Seq<Seq<K::Complex>>,
    samples: Seq<(usize, usize)>,
    sums: Seq<K::Complex>,
    moduli: Seq<K::Real>,
    m: Phasors<K::Real, K::Complex>,
    times: spec_fn(K::Complex) -> real,
    x: real,
    y: real,
    length: real,
    i: int,
) -> (t: real)
    requires
        are_exact(k, m),
        is_flat(k, u, samples, m, times, x, y, length),
        is_walk_run(samples, sums[0], superposes(k, u), sums),
        is_walk_run(samples, moduli[0], adds_moduli(k, u), moduli),
        call_ensures(K::dark, (&k,), sums[0]),
        call_ensures(K::zero, (&k,), moduli[0]),
        0 <= i <= samples.len(),
    ensures
        (m.re)(sums[i]) == t * x,
        (m.im)(sums[i]) == t * y,
        (m.size)(moduli[i]) == t * length,
    decreases i,
{
    if i > 0 {
        let j = i - 1;
        let t = lemma_flat_sums(k, u, samples, sums, moduli, m, times, x, y, length, j);
        let s = samples[j];
        let c = u[s.0 as int][s.1 as int];
        assert(superposes(k, u)(sums[j], s, sums[j + 1]));
        assert(adds_moduli(k, u)(moduli[j], s, moduli[j + 1]));
        let a = choose|a: K::Real| #[trigger]
            call_ensures(K::modulus, (&k, c), a) && call_ensures(
                K::plus,
                (&k, moduli[j], a),
                moduli[j + 1],
            );
        let w = times(c);
        lemma_distributes(t, w, x);
        lemma_distributes(t, w, y);
        lemma_distributes(t, w, length);
        t + w
    } else {
        assert(0real * x == 0real && 0real * y == 0real && 0real * length == 0real);
        0real
    }
}

/// The Strehl ratio of a flat phase is one, whatever the moduli are.
pub proof fn law_flat_strehl_is_one<K: Pupil>(
    k: K,
    u: Seq<Seq<K::Complex>>,
    samples: Seq<(usize, usize)>,
    q: K::Real,
    m: Phasors<K::Real, K::Complex>,
    times: spec_fn(K::Complex) -> real,
    x: real,
    y: real,
    length: real,
)
    requires
        is_strehl(k, u, samples, samples, Ok(q)),
        are_exact(k, m),
        is_flat(k, u, samples, m, times, x, y, length),
    ensures
        (m.size)(q) == 1real,
{
    let (sums, moduli, p, square) = lemma_strehl_sums(k, u, samples, q, m);
    let n = samples.len() as int;
    let t = lemma_flat_sums(k, u, samples, sums, moduli, m, times, x, y, length, n);
    lemma_regroups(t, x, t, x);
    lemma_regroups(t, y, t, y);
    lemma_regroups(t, length, t, length);
    lemma_distributes(x * x, y * y, t * t);
    assert(1real * (m.size)(square) == (m.size)(square));
    lemma_cancels((m.size)(q), 1real, (m.size)(square));
}

/// The amplitudes of `w` over a pupil are those of `u` times one complex number,
/// `(x, y)`, of length `length`.
pub open spec fn is_scaled<K: Pupil>(
    u: Seq<Seq<K::Complex>>,
    w: Seq<Seq<K::Complex>>,
    samples: Seq<(usize, usize)>,
    m: Phasors<K::Real, K::Complex>,
    x: real,
    y: real,
    length: real,
) -> bool {
    &&& length > 0real
    &&& x * x + y * y == length * length
    &&& forall|i: int|
        #![trigger samples[i]]
        0 <= i < samples.len() ==> {
            let a = u[samples[i].0 as int][samples[i].1 as int];
            let b = w[samples[i].0 as int][samples[i].1 as int];
            &&& (m.re)(b) == x * (m.re)(a) - y * (m.im)(a)
            &&& (m.im)(b) == x * (m.im)(a) + y * (m.re)(a)
        }
}

proof fn lemma_scaled_sums<K: Pupil>(
    k: K,
    u: Seq<Seq<K::Complex>>,
    w: Seq<Seq<K::Complex>>,
    samples: Seq<(usize, usize)>,
    sums: Seq<K::Complex>,
    moduli: Seq<K::Real>,
    sums2: Seq<K::Complex>,
    moduli2: Seq<K::Real>,
    m: Phasors<K::Real, K::Complex>,
    x: real,
    y: real,
    length: real,
    i: int,
)
    requires
        are_exact(k, m),
        is_scaled::<K>(u, w, samples, m, x, y, length),
        is_walk_run(samples, sums[0], superposes(k, u), sums),
        is_walk_run(samples, moduli[0], adds_moduli(k, u), moduli),
        call_ensures(K::dark, (&k,), sums[0]),
        call_ensures(K::zero, (&k,), moduli[0]),
        is_walk_run(samples, sums2[0], superposes(k, w), sums2),
        is_walk_run(samples, moduli2[0], adds_moduli(k, w), moduli2),
        call_ensures(K::dark, (&k,), sums2[0]),
        call_ensures(K::zero, (&k,), moduli2[0]),
        0 <= i <= samples.len(),
    ensures
        (m.re)(sums2[i]) == x * (m.re)(sums[i]) - y * (m.im)(sums[i]),
        (m.im)(sums2[i]) == x * (m.im)(sums[i]) + y * (m.re)(sums[i]),
        (m.size)(moduli2[i]) == length * (m.size)(moduli[i]),
    decreases i,
{
    if i > 0 {
        let j = i - 1;
        lemma_scaled_sums(k, u, w, samples, sums, moduli, sums2, moduli2, m, x, y, length, j);
        let p = samples[j];
        let a = u[p.0 as int][p.1 as int];
        let b = w[p.0 as int][p.1 as int];
        assert(superposes(k, u)(sums[j], p, sums[j + 1]));
        assert(superposes(k, w)(sums2[j], p, sums2[j + 1]));
        assert(adds_moduli(k, u)(moduli[j], p, moduli[j + 1]));
        assert(adds_moduli(k, w)(moduli2[j], p, moduli2[j + 1]));
        let c = choose|c: K::Real|
            #[trigger] call_ensures(K::modulus, (&k, a), c) && call_ensures(
                K::plus,
                (&k, moduli[j], c),
                moduli[j + 1],
            );
        let d = choose|c: K::Real|
            #[trigger] call_ensures(K::modulus, (&k, b), c) && call_ensures(
                K::plus,
                (&k, moduli2[j], c),
                moduli2[j + 1],
            );
        let (r, t) = ((m.re)(a), (m.im)(a));
        let (s, z) = ((m.size)(c), (m.size)(d));
        lemma_product_squares(x, y, r, t);
        lemma_regroups(length, s, length, s);
        assert(z * z == (length * s) * (length * s));
        lemma_keeps_order(0real, s, length);
        assert(length * 0real == 0real);
        lemma_roots_order(z, length * s);
        lemma_roots_order(length * s, z);
        let (e, f, g) = ((m.re)(sums[j]), (m.im)(sums[j]), (m.size)(moduli[j]));
        lemma_distributes(e, r, x);
        lemma_distributes(f, t, y);
        lemma_distributes(f, t, x);
        lemma_distributes(e, r, y);
        lemma_distributes(g, s, length);
    } else {
        assert(x * 0real == 0real && y * 0real == 0real && length * 0real == 0real);
    }
}

/// The phase-only Strehl ratio does not see a complex factor: multiplying the whole
/// field by one that is not nothing leaves it as it is.
pub proof fn law_strehl_is_scale_free<K: Pupil>(
    k: K,
    u: Seq<Seq<K::Complex>>,
    w: Seq<Seq<K::Complex>>,
    samples: Seq<(usize, usize)>,
    q: K::Real,
    r: K::Real,
    m: Phasors<K::Real, K::Complex>,
    x: real,
    y: real,
    length: real,
)
    requires
        is_strehl(k, u, samples, samples, Ok(q)),
        is_strehl(k, w, samples, samples, Ok(r)),
        are_exact(k, m),
        is_scaled::<K>(u, w, samples, m, x, y, length),
    ensures
        (m.size)(q) == (m.size)(r),
{
    let (sums, moduli, p, square) = lemma_strehl_sums(k, u, samples, q, m);
    let (sums2, moduli2, p2, square2) = lemma_strehl_sums(k, w, samples, r, m);
    let n = samples.len() as int;
    lemma_scaled_sums(k, u, w, samples, sums, moduli, sums2, moduli2, m, x, y, length, n);
    let (a, b, s) = ((m.re)(sums[n]), (m.im)(sums[n]), (m.size)(moduli[n]));
    assert(sums.last() == sums[n] && moduli.last() == moduli[n]);
    assert(sums2.last() == sums2[n] && moduli2.last() == moduli2[n]);
    lemma_product_squares(x, y, a, b);
    lemma_regroups(length, s, length, s);
    let (area, l2, c, d) = (m.area * m.area, length * length, a * a + b * b, s * s);
    let (v, w) = ((m.size)(q), (m.size)(r));
    assert((m.size)(p2) == area * (l2 * c) && (m.size)(square2) == area * (l2 * d));
    assert(v * (area * d) == area * c && w * (area * (l2 * d)) == area * (l2 * c));
    // The second quotient, its terms taken out of the square of the length.
    lemma_rolls(area, l2, d);
    lemma_rolls(area, l2, c);
    lemma_commutes(area, d);
    lemma_commutes(area, c);
    lemma_rolls(w, l2, area * d);
    lemma_commutes(area * d, w);
    lemma_positive(length, length);
    lemma_commutes(l2, w * (area * d));
    lemma_commutes(l2, area * c);
    lemma_cancels(w * (area * d), area * c, l2);
    lemma_cancels(v, w, area * d);
}

/// Fitting is exact in a measure: sums and products are those of the measured
/// numbers, a sample is where `at` says, a residual is the phase less the plane,
/// and a solved system, whose determinant is the matrix's, holds.
pub open spec fn fits_exactly<K: Pupil>(
    k: K,
    size: spec_fn(K::Real) -> real,
    at: spec_fn(isize) -> real,
) -> bool {
    &&& forall|zero: K::Real| #[trigger] call_ensures(K::zero, (&k,), zero) ==> size(zero) == 0real
    &&& forall|a: K::Real, b: K::Real, c: K::Real| #[trigger]
        call_ensures(K::plus, (&k, a, b), c) ==> size(c) == size(a) + size(b)
    &&& forall|a: K::Real, b: K::Real, c: K::Real| #[trigger]
        call_ensures(K::times, (&k, a, b), c) ==> size(c) == size(a) * size(b)
    &&& forall|n: usize, c: K::Real| #[trigger]
        call_ensures(K::count, (&k, n), c) ==> size(c) == n as real
    &&& forall|i: isize, x: K::Real| #[trigger]
        call_ensures(K::coordinate, (&k, i), x) ==> size(x) == at(i)
    &&& forall|
        p: K::Real,
        plane: (K::Real, K::Real, K::Real),
        x: K::Real,
        y: K::Real,
        r: K::Real,
    | #[trigger]
        call_ensures(K::residual, (&k, p, plane, x, y), r) ==> size(r) == size(p) - (size(plane.0)
            + size(plane.1) * size(x) + size(plane.2) * size(y))
    &&& forall|sys: NormalSystem<K::Real>, fit: Fit<K::Real>, row: int| #[trigger]
        is_solved(k, sys, fit) && call_ensures(K::determinant, (&k, sys.matrix), sys.det) && 0 <= row
            < 3 ==> size(#[trigger] sys.matrix[row][0]) * size(fit.plane.0) + size(sys.matrix[row][1]) * size(fit.plane.1) + size(sys.matrix[row][2]) * size(
            fit.plane.2,
        ) == size(sys.rhs[row])
}

/// What a step along a residual and a plane adds to the product of the two, in the
/// moments.
proof fn lemma_residual_moments(
    p: real,
    x: real,
    y: real,
    c0: real,
    c1: real,
    c2: real,
    e0: real,
    e1: real,
    e2: real,
)
    ensures
        (p - (c0 + c1 * x + c2 * y)) * (e0 + e1 * x + e2 * y) == e0 * (p - c0 - c1 * x - c2 * y)
            + e1 * (x * p - c0 * x - c1 * (x * x) - c2 * (x * y)) + e2 * (y * p - c0 * y - c1 * (x
            * y) - c2 * (y * y)),
{
    let plane = c0 + c1 * x + c2 * y;
    let r = p - plane;
    lemma_distributes_over_three(e0, e1 * x, e2 * y, r);
    lemma_commutes(r, e0);
    lemma_rolls(r, e1, x);
    lemma_rolls(r, e2, y);
    lemma_distributes(p, plane, x);
    lemma_distributes(p, plane, y);
    lemma_distributes_over_three(c0, c1 * x, c2 * y, x);
    lemma_distributes_over_three(c0, c1 * x, c2 * y, y);
    lemma_commutes(x, c0);
    lemma_commutes(y, c0);
    lemma_commutes(x, y);
    lemma_rolls(x, c1, x);
    lemma_rolls(x, c2, y);
    lemma_rolls(y, c1, x);
    lemma_rolls(y, c2, y);
}

/// How far the squared residuals of another plane exceed those of a plane, over the
/// first samples: the square of the difference, less twice its product with the
/// residual.
proof fn lemma_residuals_differ<K: Pupil>(
    k: K,
    n: int,
    phase: Seq<Seq<K::Real>>,
    samples: Seq<(usize, usize)>,
    moments: Seq<Moments<K::Real>>,
    plane: (K::Real, K::Real, K::Real),
    other: (K::Real, K::Real, K::Real),
    own: Seq<K::Real>,
    theirs: Seq<K::Real>,
    size: spec_fn(K::Real) -> real,
    at: spec_fn(isize) -> real,
    i: int,
) -> (squares: real)
    requires
        fits_exactly(k, size, at),
        are_no_moments(k, moments[0]),
        is_walk_run(samples, moments[0], adds_moments(k, n, phase), moments),
        call_ensures(K::zero, (&k,), own[0]),
        is_walk_run(samples, own[0], adds_residuals(k, n, phase, plane), own),
        call_ensures(K::zero, (&k,), theirs[0]),
        is_walk_run(samples, theirs[0], adds_residuals(k, n, phase, other), theirs),
        0 <= i <= samples.len(),
    ensures
        squares >= 0real,
        ({
            let s = moments[i];
            let (c0, c1, c2) = (size(plane.0), size(plane.1), size(plane.2));
            let (e0, e1, e2) = (size(other.0) - c0, size(other.1) - c1, size(other.2) - c2);
            size(theirs[i]) - size(own[i]) == squares - 2real * (e0 * (size(s.p) - c0 * (i as real) - c1 * size(
                s.x,
            ) - c2 * size(s.y)) + e1 * (size(s.xp) - c0 * size(s.x) - c1 * size(s.xx) - c2 * size(
                s.xy,
            )) + e2 * (size(s.yp) - c0 * size(s.y) - c1 * size(s.xy) - c2 * size(s.yy)))
        }),
    decreases i,
{
    let (c0, c1, c2) = (size(plane.0), size(plane.1), size(plane.2));
    let (e0, e1, e2) = (size(other.0) - c0, size(other.1) - c1, size(other.2) - c2);
    if i > 0 {
        let j = i - 1;
        let before = lemma_residuals_differ(
            k,
            n,
            phase,
            samples,
            moments,
            plane,
            other,
            own,
            theirs,
            size,
            at,
            j,
        );
        let p = samples[j];
        let value = phase[p.0 as int][p.1 as int];
        assert(adds_moments(k, n, phase)(moments[j], p, moments[j + 1]));
        assert(adds_residuals(k, n, phase, plane)(own[j], p, own[j + 1]));
        assert(adds_residuals(k, n, phase, other)(theirs[j], p, theirs[j + 1]));
        let (x0, y0) = choose|x: K::Real, y: K::Real| #[trigger]
            is_placed(k, n, p, x, y) && is_moment_added(k, moments[j], x, y, value, moments[j + 1]);
        let (x1, y1, r1) = choose|x: K::Real, y: K::Real, r: K::Real|
            {
                &&& #[trigger] is_placed(k, n, p, x, y)
                &&& #[trigger] call_ensures(K::residual, (&k, value, plane, x, y), r)
                &&& is_product_added(k, own[j], r, r, own[j + 1])
            };
        let (x2, y2, r2) = choose|x: K::Real, y: K::Real, r: K::Real|
            {
                &&& #[trigger] is_placed(k, n, p, x, y)
                &&& #[trigger] call_ensures(K::residual, (&k, value, other, x, y), r)
                &&& is_product_added(k, theirs[j], r, r, theirs[j + 1])
            };
        let (x, y, v) = (size(x0), size(y0), size(value));
        assert(size(x1) == x && size(x2) == x && size(y1) == y && size(y2) == y);
        let (a, b) = (moments[j], moments[j + 1]);
        assert(size(b.xx) == size(a.xx) + x * x && size(b.yy) == size(a.yy) + y * y && size(b.xy)
            == size(a.xy) + x * y && size(b.xp) == size(a.xp) + x * v && size(b.yp) == size(a.yp)
            + y * v);
        assert(size(b.x) == size(a.x) + x && size(b.y) == size(a.y) + y && size(b.p) == size(a.p)
            + v);
        let r = v - (c0 + c1 * x + c2 * y);
        let l = e0 + e1 * x + e2 * y;
        assert(size(r1) == r);
        assert(size(r2) == r - l) by {
            let (d0, d1, d2) = (size(other.0), size(other.1), size(other.2));
            lemma_distributes(c1, e1, x);
            lemma_distributes(c2, e2, y);
            assert(d1 == c1 + e1 && d2 == c2 + e2);
        }
        lemma_square_of_sum(r, l);
        lemma_residual_moments(v, x, y, c0, c1, c2, e0, e1, e2);
        let (f0, f1, f2) = (
            v - c0 - c1 * x - c2 * y,
            x * v - c0 * x - c1 * (x * x) - c2 * (x * y),
            y * v - c0 * y - c1 * (x * y) - c2 * (y * y),
        );
        let (g0, g1, g2) = (
            size(a.p) - c0 * (j as real) - c1 * size(a.x) - c2 * size(a.y),
            size(a.xp) - c0 * size(a.x) - c1 * size(a.xx) - c2 * size(a.xy),
            size(a.yp) - c0 * size(a.y) - c1 * size(a.xy) - c2 * size(a.yy),
        );
        let (h0, h1, h2) = (
            size(b.p) - c0 * (i as real) - c1 * size(b.x) - c2 * size(b.y),
            size(b.xp) - c0 * size(b.x) - c1 * size(b.xx) - c2 * size(b.xy),
            size(b.yp) - c0 * size(b.y) - c1 * size(b.xy) - c2 * size(b.yy),
        );
        lemma_moment_step(c0, c1, c2, size(a.p), size(a.x), size(a.y), j as real, v, x, y, 1real);
        assert(c0 * 1real == c0);
        assert(i as real == j as real + 1real);
        lemma_moment_step(
            c0,
            c1,
            c2,
            size(a.xp),
            size(a.xx),
            size(a.xy),
            size(a.x),
            x * v,
            x * x,
            x * y,
            x,
        );
        lemma_moment_step(
            c0,
            c1,
            c2,
            size(a.yp),
            size(a.xy),
            size(a.yy),
            size(a.y),
            y * v,
            x * y,
            y * y,
            y,
        );
        assert(h0 == g0 + f0 && h1 == g1 + f1 && h2 == g2 + f2);
        lemma_distributes(g0, f0, e0);
        lemma_distributes(g1, f1, e1);
        lemma_distributes(g2, f2, e2);
        assert(r * l == e0 * f0 + e1 * f1 + e2 * f2);
        lemma_square_is_not_negative(l);
        before + l * l
    } else {
        let s = moments[0];
        assert(c0 * 0real == 0real && c1 * 0real == 0real && c2 * 0real == 0real);
        assert(e0 * 0real == 0real && e1 * 0real == 0real && e2 * 0real == 0real);
        assert(i as real == 0real);
        0real
    }
}

proof fn lemma_moment_step(
    c0: real,
    c1: real,
    c2: real,
    p: real,
    x: real,
    y: real,
    n: real,
    dp: real,
    dx: real,
    dy: real,
    dn: real,
)
    ensures
        (p + dp) - c0 * (n + dn) - c1 * (x + dx) - c2 * (y + dy) == (p - c0 * n - c1 * x - c2 * y)
            + (dp - c0 * dn - c1 * dx - c2 * dy),
{
    lemma_distributes(n, dn, c0);
    lemma_distributes(x, dx, c1);
    lemma_distributes(y, dy, c2);
}

/// The fitted plane is the best: about no other plane are the squared residuals of
/// the phase, summed over the pupil, smaller.
pub proof fn law_fit_is_the_best_plane<K: Pupil>(
    k: K,
    n: int,
    phase: Plane<K::Real>,
    samples: Seq<(usize, usize)>,
    fit: Fit<K::Real>,
    other: (K::Real, K::Real, K::Real),
    zero: K::Real,
    own: K::Real,
    theirs: K::Real,
    size: spec_fn(K::Real) -> real,
    at: spec_fn(isize) -> real,
)
    requires
        samples.len() <= usize::MAX,
        is_plane_fit(k, n, phase, samples, Ok(fit)),
        call_ensures(K::zero, (&k,), zero),
        is_walk(samples, zero, adds_residuals(k, n, phase@, fit.plane), own),
        is_walk(samples, zero, adds_residuals(k, n, phase@, other), theirs),
        fits_exactly(k, size, at),
    ensures
        size(own) <= size(theirs),
{
    let sys = choose|sys: NormalSystem<K::Real>| #[trigger]
        is_normal_system(k, n, phase@, samples, sys) && is_solved(k, sys, fit);
    let m = choose|m: Moments<K::Real>|
        {
            &&& #[trigger] are_moments(k, n, phase@, samples, m)
            &&& call_ensures(K::count, (&k, samples.len() as usize), sys.count)
            &&& is_normal_matrix(sys.count, m, sys.matrix)
            &&& sys.rhs[0] == m.p && sys.rhs[1] == m.xp && sys.rhs[2] == m.yp
        };
    let none = choose|none: Moments<K::Real>| #[trigger]
        are_no_moments(k, none) && is_walk(samples, none, adds_moments(k, n, phase@), m);
    let moments = choose|run: Seq<Moments<K::Real>>| #[trigger]
        is_walk_run(samples, none, adds_moments(k, n, phase@), run) && run.last() == m;
    let a = choose|run: Seq<K::Real>| #[trigger]
        is_walk_run(samples, zero, adds_residuals(k, n, phase@, fit.plane), run) && run.last()
            == own;
    let b = choose|run: Seq<K::Real>| #[trigger]
        is_walk_run(samples, zero, adds_residuals(k, n, phase@, other), run) && run.last()
            == theirs;
    let count = samples.len() as int;
    let squares = lemma_residuals_differ(
        k,
        n,
        phase@,
        samples,
        moments,
        fit.plane,
        other,
        a,
        b,
        size,
        at,
        count,
    );
    let (c0, c1, c2) = (size(fit.plane.0), size(fit.plane.1), size(fit.plane.2));
    let (e0, e1, e2) = (size(other.0) - c0, size(other.1) - c1, size(other.2) - c2);
    let number = count as real;
    assert(size(sys.count) == number);
    assert(size(sys.matrix[0][0]) == number && size(sys.matrix[0][1]) == size(m.x) && size(
        sys.matrix[0][2],
    ) == size(m.y));
    assert(size(sys.matrix[1][0]) == size(m.x) && size(sys.matrix[1][1]) == size(m.xx) && size(
        sys.matrix[1][2],
    ) == size(m.xy));
    assert(size(sys.matrix[2][0]) == size(m.y) && size(sys.matrix[2][1]) == size(m.xy) && size(
        sys.matrix[2][2],
    ) == size(m.yy));
    let (h0, h1, h2) = (
        size(m.p) - c0 * number - c1 * size(m.x) - c2 * size(m.y),
        size(m.xp) - c0 * size(m.x) - c1 * size(m.xx) - c2 * size(m.xy),
        size(m.yp) - c0 * size(m.y) - c1 * size(m.xy) - c2 * size(m.yy),
    );
    lemma_row_holds(number, size(m.x), size(m.y), c0, c1, c2);
    lemma_row_holds(size(m.x), size(m.xx), size(m.xy), c0, c1, c2);
    lemma_row_holds(size(m.y), size(m.xy), size(m.yy), c0, c1, c2);
    assert(h0 == 0real && h1 == 0real && h2 == 0real);
    assert(e0 * 0real == 0real && e1 * 0real == 0real && e2 * 0real == 0real);
}

proof fn lemma_levels_differ<K: Pupil>(
    k: K,
    n: int,
    phase: Seq<Seq<K::Real>>,
    samples: Seq<(usize, usize)>,
    sums: Seq<K::Real>,
    level: (K::Real, K::Real, K::Real),
    other: (K::Real, K::Real, K::Real),
    own: Seq<K::Real>,
    theirs: Seq<K::Real>,
    size: spec_fn(K::Real) -> real,
    at: spec_fn(isize) -> real,
    i: int,
)
    requires
        fits_exactly(k, size, at),
        size(level.1) == 0real && size(level.2) == 0real,
        size(other.1) == 0real && size(other.2) == 0real,
        call_ensures(K::zero, (&k,), sums[0]),
        is_walk_run(samples, sums[0], adds_phase(k, phase), sums),
        call_ensures(K::zero, (&k,), own[0]),
        is_walk_run(samples, own[0], adds_residuals(k, n, phase, level), own),
        call_ensures(K::zero, (&k,), theirs[0]),
        is_walk_run(samples, theirs[0], adds_residuals(k, n, phase, other), theirs),
        0 <= i <= samples.len(),
    ensures
        ({
            let e = size(other.0) - size(level.0);
            size(theirs[i]) - size(own[i]) == (i as real) * (e * e) - 2real * (e * (size(sums[i]) - (
            i as real) * size(level.0)))
        }),
    decreases i,
{
    let (c, e) = (size(level.0), size(other.0) - size(level.0));
    if i > 0 {
        let j = i - 1;
        lemma_levels_differ(k, n, phase, samples, sums, level, other, own, theirs, size, at, j);
        let p = samples[j];
        let value = phase[p.0 as int][p.1 as int];
        assert(adds_phase(k, phase)(sums[j], p, sums[j + 1]));
        assert(adds_residuals(k, n, phase, level)(own[j], p, own[j + 1]));
        assert(adds_residuals(k, n, phase, other)(theirs[j], p, theirs[j + 1]));
        let (x1, y1, r1) = choose|x: K::Real, y: K::Real, r: K::Real|
            {
                &&& #[trigger] is_placed(k, n, p, x, y)
                &&& #[trigger] call_ensures(K::residual, (&k, value, level, x, y), r)
                &&& is_product_added(k, own[j], r, r, own[j + 1])
            };
        let (x2, y2, r2) = choose|x: K::Real, y: K::Real, r: K::Real|
            {
                &&& #[trigger] is_placed(k, n, p, x, y)
                &&& #[trigger] call_ensures(K::residual, (&k, value, other, x, y), r)
                &&& is_product_added(k, theirs[j], r, r, theirs[j + 1])
            };
        let v = size(value);
        assert(0real * size(x1) == 0real && 0real * size(y1) == 0real && 0real * size(x2) == 0real
            && 0real * size(y2) == 0real);
        let r = v - c;
        assert(size(r1) == r);
        assert(size(r2) == r - e);
        lemma_square_of_sum(r, e);
        lemma_commutes(r, e);
        let (s, l) = (size(sums[j]), j as real);
        assert(i as real == l + 1real);
        lemma_distributes(l, 1real, c);
        lemma_distributes(l, 1real, e * e);
        assert(1real * c == c && 1real * (e * e) == e * e);
        assert(s + v - (l + 1real) * c == (s - l * c) + r);
        lemma_distributes(s - l * c, r, e);
    } else {
        assert(i as real == 0real);
        assert(0real * (e * e) == 0real && 0real * c == 0real && e * 0real == 0real);
    }
}

/// The mean is the best constant: about no other constant are the squared residuals
/// of the phase, summed over the pupil, smaller.
pub proof fn law_mean_is_the_best_constant<K: Pupil>(
    k: K,
    n: int,
    phase: Seq<Seq<K::Real>>,
    samples: Seq<(usize, usize)>,
    fit: Fit<K::Real>,
    other: (K::Real, K::Real, K::Real),
    zero: K::Real,
    own: K::Real,
    theirs: K::Real,
    size: spec_fn(K::Real) -> real,
    at: spec_fn(isize) -> real,
)
    requires
        is_piston(k, phase, samples, fit),
        0 < samples.len() <= usize::MAX,
        call_ensures(K::zero, (&k,), zero),
        is_walk(samples, zero, adds_residuals(k, n, phase, fit.plane), own),
        is_walk(samples, zero, adds_residuals(k, n, phase, other), theirs),
        size(other.1) == 0real && size(other.2) == 0real,
        fits_exactly(k, size, at),
        forall|a: K::Real, b: K::Real, c: K::Real| #[trigger]
            call_ensures(K::ratio, (&k, a, b), c) && size(b) != 0real ==> size(c) * size(b) == size(
                a,
            ),
    ensures
        size(own) <= size(theirs),
{
    let (none, sum) = choose|none: K::Real, sum: K::Real|
        {
            &&& #[trigger] call_ensures(K::zero, (&k,), none)
            &&& #[trigger] is_walk(samples, none, adds_phase(k, phase), sum)
            &&& call_ensures(K::count, (&k, samples.len() as usize), fit.count)
            &&& call_ensures(K::ratio, (&k, sum, fit.count), fit.plane.0)
            &&& call_ensures(K::zero, (&k,), fit.plane.1)
            &&& call_ensures(K::zero, (&k,), fit.plane.2)
        };
    let sums = choose|run: Seq<K::Real>| #[trigger]
        is_walk_run(samples, none, adds_phase(k, phase), run) && run.last() == sum;
    let a = choose|run: Seq<K::Real>| #[trigger]
        is_walk_run(samples, zero, adds_residuals(k, n, phase, fit.plane), run) && run.last() == own;
    let b = choose|run: Seq<K::Real>| #[trigger]
        is_walk_run(samples, zero, adds_residuals(k, n, phase, other), run) && run.last() == theirs;
    let count = samples.len() as int;
    lemma_levels_differ(k, n, phase, samples, sums, fit.plane, other, a, b, size, at, count);
    let (c, e, number) = (
        size(fit.plane.0),
        size(other.0) - size(fit.plane.0),
        count as real,
    );
    lemma_commutes(c, number);
    assert(size(sums[count]) - number * c == 0real);
    lemma_nothing(e);
    lemma_square_is_not_negative(e);
    lemma_keeps_order(0real, e * e, number);
    assert(number * 0real == 0real);
}

proof fn lemma_row_holds(a: real, b: real, c: real, x: real, y: real, z: real)
    ensures
        a * x + b * y + c * z == x * a + y * b + z * c,
{
    lemma_commutes(a, x);
    lemma_commutes(b, y);
    lemma_commutes(c, z);
}

} // verus!

//! What a tilt is the tilt of.
//!
//! The tilt of a phase that is a plane is the slope of that plane, along x first and
//! along y second. The tilt of a field is the mean gradient of its phase, weighed by its
//! intensity, and a field that varies along one axis alone is tilted along that axis
//! alone.
use crate::algebra::{
    lemma_associates, lemma_cancels, lemma_commutes, lemma_distributes, lemma_negates,
    lemma_nothing, lemma_positive, lemma_square_is_not_negative,
};
use crate::aperture::{
    adds_flow, adds_moments, adds_residuals, are_moments, are_no_moments, fits_exactly,
    has_neighbours, is_field_tilt, is_flow, is_mean_tilt, is_moment_added, is_no_flow,
    is_normal_matrix, is_normal_system, is_placed, is_plane_fit, is_product_added, is_pupil_of,
    is_residual_variance, is_solved, is_tilt, is_tilt_of_field, is_variance, is_walk, is_walk_run,
    is_wander, Disc, Fit, Flow, Moments, NormalSystem, Pupil, TiltRemoval,
};
use crate::field::Field;
use crate::grid::offset_of;
use crate::ignition_case::{is_wander_found, IgnitionCase, IgnitionParams};
use crate::plane::Plane;
use vstd::prelude::*;

verus! {

/// The square of a plane, summed, in the sums that it is fitted from.
spec fn square_sum(
    e: (real, real, real),
    n: real,
    x: real,
    y: real,
    xx: real,
    xy: real,
    yy: real,
) -> real {
    e.0 * (e.0 * n + e.1 * x + e.2 * y) + e.1 * (e.0 * x + e.1 * xx + e.2 * xy) + e.2 * (e.0 * y
        + e.1 * xy + e.2 * yy)
}

/// What a step adds to a row of the sums, weighed by a plane.
proof fn lemma_row_grows(
    plane: (real, real, real),
    x: real,
    y: real,
    t: real,
    p: real,
    q: real,
    r: real,
)
    ensures
        plane.0 * (p + t) + plane.1 * (q + x * t) + plane.2 * (r + y * t) == (plane.0 * p + plane.1
            * q + plane.2 * r) + (plane.0 + plane.1 * x + plane.2 * y) * t,
{
    let (a, b, c) = plane;
    lemma_distributes(p, t, a);
    lemma_distributes(q, x * t, b);
    lemma_distributes(r, y * t, c);
    lemma_associates(b, x, t);
    lemma_associates(c, y, t);
    lemma_distributes(a + b * x, c * y, t);
    lemma_distributes(a, b * x, t);
}

proof fn lemma_square_is_added(
    e: (real, real, real),
    n: real,
    sx: real,
    sy: real,
    sxx: real,
    sxy: real,
    syy: real,
    x: real,
    y: real,
)
    ensures
        square_sum(e, n + 1real, sx + x, sy + y, sxx + x * x, sxy + x * y, syy + y * y)
            == square_sum(e, n, sx, sy, sxx, sxy, syy) + (e.0 + e.1 * x + e.2 * y) * (e.0 + e.1 * x
            + e.2 * y),
{
    let (a, b, c) = e;
    let s = a + b * x + c * y;
    lemma_row_grows(e, x, y, 1real, n, sx, sy);
    lemma_row_grows(e, x, y, x, sx, sxx, sxy);
    lemma_row_grows(e, x, y, y, sy, sxy, syy);
    lemma_commutes(x, y);
    lemma_distributes(a * n + b * sx + c * sy, s, a);
    lemma_distributes(a * sx + b * sxx + c * sxy, s * x, b);
    lemma_distributes(a * sy + b * sxy + c * syy, s * y, c);
    lemma_commutes(s, x);
    lemma_commutes(s, y);
    lemma_associates(b, x, s);
    lemma_associates(c, y, s);
    lemma_distributes(a + b * x, c * y, s);
    lemma_distributes(a, b * x, s);
    assert(x * 1real == x && y * 1real == y && s * 1real == s);
}

/// The height of a plane at a sample, along x by its column and along y by its row.
pub open spec fn height_at(
    plane: (real, real, real),
    at: spec_fn(isize) -> real,
    n: int,
    sample: (usize, usize),
) -> real {
    plane.0 + plane.1 * at(offset_of(n, sample.1 as int) as isize) + plane.2 * at(
        offset_of(n, sample.0 as int) as isize,
    )
}

/// The sums of a phase that is a plane.
proof fn lemma_moments_of_a_plane<K: Pupil>(
    k: K,
    n: int,
    phase: Seq<Seq<K::Real>>,
    samples: Seq<(usize, usize)>,
    run: Seq<Moments<K::Real>>,
    size: spec_fn(K::Real) -> real,
    at: spec_fn(isize) -> real,
    plane: (real, real, real),
    e: (real, real, real),
    i: int,
)
    requires
        fits_exactly(k, size, at),
        are_no_moments(k, run[0]),
        is_walk_run(samples, run[0], adds_moments(k, n, phase), run),
        forall|m: int|
            0 <= m < samples.len() ==> size(
                phase[(#[trigger] samples[m]).0 as int][samples[m].1 as int],
            ) == height_at(plane, at, n, samples[m]),
        0 <= i <= samples.len(),
    ensures
        ({
            let s = run[i];
            &&& size(s.p) == plane.0 * (i as real) + plane.1 * size(s.x) + plane.2 * size(s.y)
            &&& size(s.xp) == plane.0 * size(s.x) + plane.1 * size(s.xx) + plane.2 * size(s.xy)
            &&& size(s.yp) == plane.0 * size(s.y) + plane.1 * size(s.xy) + plane.2 * size(s.yy)
            &&& square_sum(
                e,
                i as real,
                size(s.x),
                size(s.y),
                size(s.xx),
                size(s.xy),
                size(s.yy),
            ) >= 0real
            &&& forall|m: int|
                0 <= m < i ==> square_sum(
                    e,
                    i as real,
                    size(s.x),
                    size(s.y),
                    size(s.xx),
                    size(s.xy),
                    size(s.yy),
                ) >= height_at(e, at, n, #[trigger] samples[m]) * height_at(e, at, n, samples[m])
        }),
    decreases i,
{
    let (a, b, c) = plane;
    if i > 0 {
        let j = i - 1;
        lemma_moments_of_a_plane(k, n, phase, samples, run, size, at, plane, e, j);
        let p = samples[j];
        let (s, t) = (run[j], run[i]);
        assert(adds_moments(k, n, phase)(run[j], samples[j], run[j + 1]));
        let v = phase[p.0 as int][p.1 as int];
        let (x, y) = choose|x: K::Real, y: K::Real| #[trigger]
            is_placed(k, n, p, x, y) && is_moment_added(k, s, x, y, v, t);
        let (wx, wy, wv) = (size(x), size(y), size(v));
        assert(wv == height_at(plane, at, n, p));
        assert(wv == a + b * wx + c * wy);
        assert(size(t.x) == size(s.x) + wx && size(t.y) == size(s.y) + wy && size(t.p) == size(s.p)
            + wv);
        assert(size(t.xx) == size(s.xx) + wx * wx);
        assert(size(t.xy) == size(s.xy) + wx * wy);
        assert(size(t.yy) == size(s.yy) + wy * wy);
        assert(size(t.xp) == size(s.xp) + wx * wv);
        assert(size(t.yp) == size(s.yp) + wy * wv);
        let (sx, sy, sxx, sxy, syy) = (size(s.x), size(s.y), size(s.xx), size(s.xy), size(s.yy));
        assert(i as real == j as real + 1real);
        let m = j as real;
        lemma_row_grows(plane, wx, wy, 1real, m, sx, sy);
        lemma_row_grows(plane, wx, wy, wx, sx, sxx, sxy);
        lemma_row_grows(plane, wx, wy, wy, sy, sxy, syy);
        lemma_commutes(wx, wy);
        lemma_commutes(wx, wv);
        lemma_commutes(wy, wv);
        assert(wx * 1real == wx && wy * 1real == wy && wv * 1real == wv);
        lemma_square_is_added(e, m, sx, sy, sxx, sxy, syy, wx, wy);
        let h = e.0 + e.1 * wx + e.2 * wy;
        assert(h == height_at(e, at, n, p));
        lemma_square_is_not_negative(h);
    } else {
        lemma_nothing(a);
        lemma_nothing(b);
        lemma_nothing(c);
        lemma_nothing(e.0);
        lemma_nothing(e.1);
        lemma_nothing(e.2);
    }
}

/// A phase that is a plane is fitted with that plane: where three of the samples, two in
/// one row and two in one column, are apart, the slopes of the fit are those of the
/// plane, along x by the columns and along y by the rows.
pub proof fn law_plane_is_fitted_with_its_slopes<K: Pupil>(
    k: K,
    n: int,
    phase: Plane<K::Real>,
    samples: Seq<(usize, usize)>,
    fit: Fit<K::Real>,
    size: spec_fn(K::Real) -> real,
    at: spec_fn(isize) -> real,
    plane: (real, real, real),
    corner: int,
    along: int,
    across: int,
)
    requires
        fits_exactly(k, size, at),
        samples.len() <= usize::MAX,
        is_plane_fit(k, n, phase, samples, Ok(fit)),
        forall|m: int|
            0 <= m < samples.len() ==> size(
                phase@[(#[trigger] samples[m]).0 as int][samples[m].1 as int],
            ) == height_at(plane, at, n, samples[m]),
        0 <= corner < samples.len(),
        0 <= along < samples.len(),
        0 <= across < samples.len(),
        samples[along].0 == samples[corner].0,
        samples[across].1 == samples[corner].1,
        at(offset_of(n, samples[along].1 as int) as isize) != at(
            offset_of(n, samples[corner].1 as int) as isize,
        ),
        at(offset_of(n, samples[across].0 as int) as isize) != at(
            offset_of(n, samples[corner].0 as int) as isize,
        ),
    ensures
        size(fit.plane.0) == plane.0,
        size(fit.plane.1) == plane.1,
        size(fit.plane.2) == plane.2,
{
    let sys = choose|sys: NormalSystem<K::Real>| #[trigger]
        is_normal_system(k, n, phase@, samples, sys) && is_solved(k, sys, fit);
    let m = choose|m: Moments<K::Real>|
        {
            &&& #[trigger] are_moments(k, n, phase@, samples, m)
            &&& call_ensures(K::count, (&k, samples.len() as usize), sys.count)
            &&& is_normal_matrix(sys.count, m, sys.matrix)
            &&& sys.rhs[0] == m.p && sys.rhs[1] == m.xp && sys.rhs[2] == m.yp
            &&& call_ensures(K::determinant, (&k, sys.matrix), sys.det)
        };
    let none = choose|none: Moments<K::Real>| #[trigger]
        are_no_moments(k, none) && is_walk(samples, none, adds_moments(k, n, phase@), m);
    let run = choose|run: Seq<Moments<K::Real>>| #[trigger]
        is_walk_run(samples, none, adds_moments(k, n, phase@), run) && run.last() == m;
    let (a, b, c) = plane;
    let (f0, f1, f2) = (size(fit.plane.0), size(fit.plane.1), size(fit.plane.2));
    let e = (f0 - a, f1 - b, f2 - c);
    let last = samples.len() as int;
    lemma_moments_of_a_plane(k, n, phase@, samples, run, size, at, plane, e, last);
    let (sx, sy, sxx, sxy, syy) = (size(m.x), size(m.y), size(m.xx), size(m.xy), size(m.yy));
    let w = last as real;
    assert(size(sys.matrix[0][0]) == w);
    assert(w * f0 + sx * f1 + sy * f2 == size(m.p)) by {
        assert(size(sys.matrix[0][0]) * f0 + size(sys.matrix[0][1]) * f1 + size(sys.matrix[0][2])
            * f2 == size(sys.rhs[0]));
    }
    assert(sx * f0 + sxx * f1 + sxy * f2 == size(m.xp)) by {
        assert(size(sys.matrix[1][0]) * f0 + size(sys.matrix[1][1]) * f1 + size(sys.matrix[1][2])
            * f2 == size(sys.rhs[1]));
    }
    assert(sy * f0 + sxy * f1 + syy * f2 == size(m.yp)) by {
        assert(size(sys.matrix[2][0]) * f0 + size(sys.matrix[2][1]) * f1 + size(sys.matrix[2][2])
            * f2 == size(sys.rhs[2]));
    }
    lemma_row_vanishes(plane, (f0, f1, f2), w, sx, sy);
    lemma_row_vanishes(plane, (f0, f1, f2), sx, sxx, sxy);
    lemma_row_vanishes(plane, (f0, f1, f2), sy, sxy, syy);
    let (e0, e1, e2) = e;
    lemma_nothing(e0);
    lemma_nothing(e1);
    lemma_nothing(e2);
    assert(square_sum(e, w, sx, sy, sxx, sxy, syy) == 0real);
    let (hc, ha, hb) = (
        height_at(e, at, n, samples[corner]),
        height_at(e, at, n, samples[along]),
        height_at(e, at, n, samples[across]),
    );
    lemma_no_square(hc);
    lemma_no_square(ha);
    lemma_no_square(hb);
    let (x0, y0) = (
        at(offset_of(n, samples[corner].1 as int) as isize),
        at(offset_of(n, samples[corner].0 as int) as isize),
    );
    let (x1, y1) = (
        at(offset_of(n, samples[along].1 as int) as isize),
        at(offset_of(n, samples[across].0 as int) as isize),
    );
    lemma_distributes(x1, x0, e1);
    lemma_nothing(x1 - x0);
    lemma_cancels(e1, 0real, x1 - x0);
    lemma_distributes(y1, y0, e2);
    lemma_nothing(y1 - y0);
    lemma_cancels(e2, 0real, y1 - y0);
    lemma_nothing(x0);
    lemma_nothing(y0);
}

/// Two planes with the same row of sums differ by one without it.
proof fn lemma_row_vanishes(
    plane: (real, real, real),
    fit: (real, real, real),
    p: real,
    q: real,
    r: real,
)
    requires
        p * fit.0 + q * fit.1 + r * fit.2 == plane.0 * p + plane.1 * q + plane.2 * r,
    ensures
        (fit.0 - plane.0) * p + (fit.1 - plane.1) * q + (fit.2 - plane.2) * r == 0real,
{
    lemma_distributes(fit.0, plane.0, p);
    lemma_distributes(fit.1, plane.1, q);
    lemma_distributes(fit.2, plane.2, r);
    lemma_commutes(p, fit.0);
    lemma_commutes(q, fit.1);
    lemma_commutes(r, fit.2);
}

proof fn lemma_no_square(h: real)
    ensures
        h * h <= 0real ==> h == 0real,
{
    if h > 0real {
        lemma_positive(h, h);
    } else if h < 0real {
        lemma_positive(0real - h, 0real - h);
        lemma_negates(h, h);
    }
}

proof fn lemma_nothing_is_left<K: Pupil>(
    k: K,
    n: int,
    phase: Seq<Seq<K::Real>>,
    samples: Seq<(usize, usize)>,
    fit: (K::Real, K::Real, K::Real),
    run: Seq<K::Real>,
    size: spec_fn(K::Real) -> real,
    at: spec_fn(isize) -> real,
    i: int,
)
    requires
        fits_exactly(k, size, at),
        call_ensures(K::zero, (&k,), run[0]),
        is_walk_run(samples, run[0], adds_residuals(k, n, phase, fit), run),
        forall|m: int|
            0 <= m < samples.len() ==> size(
                phase[(#[trigger] samples[m]).0 as int][samples[m].1 as int],
            ) == height_at((size(fit.0), size(fit.1), size(fit.2)), at, n, samples[m]),
        0 <= i <= samples.len(),
    ensures
        size(run[i]) == 0real,
    decreases i,
{
    if i > 0 {
        let j = i - 1;
        lemma_nothing_is_left(k, n, phase, samples, fit, run, size, at, j);
        assert(adds_residuals(k, n, phase, fit)(run[j], samples[j], run[j + 1]));
        let p = samples[j];
        let (x, y, r) = choose|x: K::Real, y: K::Real, r: K::Real|
            {
                &&& #[trigger] is_placed(k, n, p, x, y)
                &&& #[trigger] call_ensures(
                    K::residual,
                    (&k, phase[p.0 as int][p.1 as int], fit, x, y),
                    r,
                )
                &&& is_product_added(k, run[j], r, r, run[j + 1])
            };
        assert(size(r) == 0real);
        assert(size(run[j + 1]) == size(run[j]) + size(r) * size(r));
        lemma_nothing(0real);
    }
}

/// A phase that is a plane leaves nothing once its tilt is taken out: the residual
/// variance is zero.
pub proof fn law_plane_leaves_no_residual<K: Pupil>(
    k: K,
    n: int,
    phase: Plane<K::Real>,
    samples: Seq<(usize, usize)>,
    v: K::Real,
    size: spec_fn(K::Real) -> real,
    at: spec_fn(isize) -> real,
    plane: (real, real, real),
    corner: int,
    along: int,
    across: int,
)
    requires
        fits_exactly(k, size, at),
        0 < samples.len() <= usize::MAX,
        is_residual_variance(k, n, phase, TiltRemoval::PistonTipTilt, samples, Ok(v)),
        forall|a: K::Real, b: K::Real, c: K::Real| #[trigger]
            call_ensures(K::ratio, (&k, a, b), c) && size(b) != 0real ==> size(c) * size(b) == size(
                a,
            ),
        forall|m: int|
            0 <= m < samples.len() ==> size(
                phase@[(#[trigger] samples[m]).0 as int][samples[m].1 as int],
            ) == height_at(plane, at, n, samples[m]),
        0 <= corner < samples.len(),
        0 <= along < samples.len(),
        0 <= across < samples.len(),
        samples[along].0 == samples[corner].0,
        samples[across].1 == samples[corner].1,
        at(offset_of(n, samples[along].1 as int) as isize) != at(
            offset_of(n, samples[corner].1 as int) as isize,
        ),
        at(offset_of(n, samples[across].0 as int) as isize) != at(
            offset_of(n, samples[corner].0 as int) as isize,
        ),
    ensures
        size(v) == 0real,
{
    let fit = choose|fit: Fit<K::Real>| #[trigger]
        is_plane_fit(k, n, phase, samples, Ok(fit)) && is_variance(k, n, phase@, samples, fit, v);
    law_plane_is_fitted_with_its_slopes(
        k,
        n,
        phase,
        samples,
        fit,
        size,
        at,
        plane,
        corner,
        along,
        across,
    );
    let (zero, sum) = choose|zero: K::Real, sum: K::Real|
        {
            &&& #[trigger] call_ensures(K::zero, (&k,), zero)
            &&& #[trigger] is_walk(samples, zero, adds_residuals(k, n, phase@, fit.plane), sum)
            &&& call_ensures(K::ratio, (&k, sum, fit.count), v)
        };
    let run = choose|run: Seq<K::Real>| #[trigger]
        is_walk_run(samples, zero, adds_residuals(k, n, phase@, fit.plane), run) && run.last()
            == sum;
    lemma_nothing_is_left(
        k,
        n,
        phase@,
        samples,
        fit.plane,
        run,
        size,
        at,
        samples.len() as int,
    );
    assert(size(fit.count) == samples.len() as real);
    lemma_nothing(size(fit.count));
    lemma_cancels(size(v), 0real, size(fit.count));
}

/// The mean tilt of a phase that is a plane is its slope per wavenumber, along x first.
pub proof fn law_tilt_of_a_plane_is_its_slope<K: Pupil>(
    k: K,
    n: int,
    phase: Plane<K::Real>,
    wavelength: K::Real,
    samples: Seq<(usize, usize)>,
    t: (K::Real, K::Real),
    size: spec_fn(K::Real) -> real,
    at: spec_fn(isize) -> real,
    plane: (real, real, real),
    corner: int,
    along: int,
    across: int,
)
    requires
        fits_exactly(k, size, at),
        samples.len() <= usize::MAX,
        is_mean_tilt(k, n, phase, wavelength, samples, Ok(t)),
        forall|a: K::Real, b: K::Real, c: K::Real| #[trigger]
            call_ensures(K::ratio, (&k, a, b), c) && size(b) != 0real ==> size(c) * size(b) == size(
                a,
            ),
        forall|w: K::Real| #[trigger]
            call_ensures(K::wavenumber_of, (&k, wavelength), w) ==> size(w) != 0real,
        forall|m: int|
            0 <= m < samples.len() ==> size(
                phase@[(#[trigger] samples[m]).0 as int][samples[m].1 as int],
            ) == height_at(plane, at, n, samples[m]),
        0 <= corner < samples.len(),
        0 <= along < samples.len(),
        0 <= across < samples.len(),
        samples[along].0 == samples[corner].0,
        samples[across].1 == samples[corner].1,
        at(offset_of(n, samples[along].1 as int) as isize) != at(
            offset_of(n, samples[corner].1 as int) as isize,
        ),
        at(offset_of(n, samples[across].0 as int) as isize) != at(
            offset_of(n, samples[corner].0 as int) as isize,
        ),
    ensures
        exists|wave: K::Real| #[trigger]
            call_ensures(K::wavenumber_of, (&k, wavelength), wave) && size(t.0) * size(wave)
                == plane.1 && size(t.1) * size(wave) == plane.2,
{
    let (fit, wave) = choose|fit: Fit<K::Real>, wave: K::Real|
        {
            &&& #[trigger] is_plane_fit(k, n, phase, samples, Ok(fit))
            &&& #[trigger] call_ensures(K::wavenumber_of, (&k, wavelength), wave)
            &&& call_ensures(K::ratio, (&k, fit.plane.1, wave), t.0)
            &&& call_ensures(K::ratio, (&k, fit.plane.2, wave), t.1)
        };
    law_plane_is_fitted_with_its_slopes(
        k,
        n,
        phase,
        samples,
        fit,
        size,
        at,
        plane,
        corner,
        along,
        across,
    );
}

/// The flow of a field is exact: sums add up and a ratio undoes a product.
#[verifier::opaque]
pub open spec fn flows_exactly<K: Pupil>(k: K, size: spec_fn(K::Real) -> real) -> bool {
    &&& forall|zero: K::Real| #[trigger] call_ensures(K::zero, (&k,), zero) ==> size(zero) == 0real
    &&& forall|a: K::Real, b: K::Real, c: K::Real| #[trigger]
        call_ensures(K::plus, (&k, a, b), c) ==> size(c) == size(a) + size(b)
    &&& forall|a: K::Real, b: K::Real, c: K::Real| #[trigger]
        call_ensures(K::ratio, (&k, a, b), c) && size(b) != 0real ==> size(c) * size(b) == size(a)
    &&& forall|a: K::Real| #[trigger] call_ensures(K::is_positive, (&k, a), true) ==> size(a) != 0real
}

/// The phase of a field has one gradient along x: what flows at a sample, between its
/// neighbours in its row, is `g` times its intensity.
pub open spec fn rises_along_x<K: Pupil>(
    k: K,
    u: Seq<Seq<K::Complex>>,
    size: spec_fn(K::Real) -> real,
    g: real,
) -> bool {
    forall|j: int, i: int, f: K::Real, w: K::Real|
        #![trigger call_ensures(K::flow, (&k, u[j][i], u[j][i - 1], u[j][i + 1]), f), call_ensures(K::intensity, (&k, u[j][i]), w)]
        call_ensures(K::flow, (&k, u[j][i], u[j][i - 1], u[j][i + 1]), f) && call_ensures(
            K::intensity,
            (&k, u[j][i]),
            w,
        ) ==> size(f) == g * size(w)
}

/// The same along y, between the neighbours in its column.
pub open spec fn rises_along_y<K: Pupil>(
    k: K,
    u: Seq<Seq<K::Complex>>,
    size: spec_fn(K::Real) -> real,
    g: real,
) -> bool {
    forall|j: int, i: int, f: K::Real, w: K::Real|
        #![trigger call_ensures(K::flow, (&k, u[j][i], u[j - 1][i], u[j + 1][i]), f), call_ensures(K::intensity, (&k, u[j][i]), w)]
        call_ensures(K::flow, (&k, u[j][i], u[j - 1][i], u[j + 1][i]), f) && call_ensures(
            K::intensity,
            (&k, u[j][i]),
            w,
        ) ==> size(f) == g * size(w)
}

proof fn lemma_flow_is_the_gradient<K: Pupil>(
    k: K,
    n: int,
    u: Seq<Seq<K::Complex>>,
    samples: Seq<(usize, usize)>,
    run: Seq<Flow<K::Real>>,
    size: spec_fn(K::Real) -> real,
    g: real,
    i: int,
)
    requires
        flows_exactly(k, size),
        is_no_flow(k, run[0]),
        is_walk_run(samples, run[0], adds_flow(k, n, u), run),
        0 <= i <= samples.len(),
    ensures
        rises_along_x(k, u, size, g) ==> size(run[i].x) == g * size(run[i].weight),
        rises_along_y(k, u, size, g) ==> size(run[i].y) == g * size(run[i].weight),
    decreases i,
{
    if i > 0 {
        let j = i - 1;
        lemma_flow_is_the_gradient(k, n, u, samples, run, size, g, j);
        let p = samples[j];
        let (s, t) = (run[j], run[i]);
        assert(adds_flow(k, n, u)(run[j], samples[j], run[j + 1]));
        if has_neighbours(n, p) {
            let (y, x) = (p.0 as int, p.1 as int);
            let (fx, fy, w) = choose|fx: K::Real, fy: K::Real, w: K::Real|
                {
                    &&& #[trigger] call_ensures(K::flow, (&k, u[y][x], u[y][x - 1], u[y][x + 1]), fx)
                    &&& #[trigger] call_ensures(K::flow, (&k, u[y][x], u[y - 1][x], u[y + 1][x]), fy)
                    &&& #[trigger] call_ensures(K::intensity, (&k, u[y][x]), w)
                    &&& call_ensures(K::plus, (&k, s.x, fx), t.x)
                    &&& call_ensures(K::plus, (&k, s.y, fy), t.y)
                    &&& call_ensures(K::plus, (&k, s.weight, w), t.weight)
                };
            assert(size(t.x) == size(s.x) + size(fx) && size(t.y) == size(s.y) + size(fy) && size(
                t.weight,
            ) == size(s.weight) + size(w)) by {
                reveal(flows_exactly);
            }
            lemma_distributes(size(s.weight), size(w), g);
        }
    } else {
        reveal(flows_exactly);
        lemma_nothing(g);
    }
}

/// The tilt of a field is the gradient of its phase: where the phase rises by one
/// gradient along x, that is the first tilt, and where it rises by one along y, that is
/// the second, per wavenumber.
pub proof fn law_tilt_of_a_field_is_its_gradient<K: Pupil>(
    k: K,
    n: int,
    field: Field<K::Real, K::Complex>,
    wavelength: K::Real,
    samples: Seq<(usize, usize)>,
    t: (K::Real, K::Real),
    size: spec_fn(K::Real) -> real,
    g: real,
)
    requires
        flows_exactly(k, size),
        is_field_tilt(k, n, field, wavelength, samples, Ok(t)),
        forall|w: K::Real| #[trigger]
            call_ensures(K::wavenumber_of, (&k, wavelength), w) ==> size(w) != 0real,
    ensures
        exists|wave: K::Real| #[trigger]
            call_ensures(K::wavenumber_of, (&k, wavelength), wave) && (rises_along_x(
                k,
                field.u@,
                size,
                g,
            ) ==> size(t.0) * size(wave) == g) && (rises_along_y(k, field.u@, size, g) ==> size(t.1)
                * size(wave) == g),
{
    let (f, wave) = choose|f: Flow<K::Real>, wave: K::Real|
        {
            &&& #[trigger] is_flow(k, n, field.u@, samples, f)
            &&& call_ensures(K::is_positive, (&k, f.weight), true)
            &&& #[trigger] call_ensures(K::wavenumber_of, (&k, wavelength), wave)
            &&& is_tilt(k, f.x, f.weight, wave, t.0)
            &&& is_tilt(k, f.y, f.weight, wave, t.1)
        };
    let none = choose|none: Flow<K::Real>| #[trigger]
        is_no_flow(k, none) && is_walk(samples, none, adds_flow(k, n, field.u@), f);
    let run = choose|run: Seq<Flow<K::Real>>| #[trigger]
        is_walk_run(samples, none, adds_flow(k, n, field.u@), run) && run.last() == f;
    lemma_flow_is_the_gradient(k, n, field.u@, samples, run, size, g, samples.len() as int);
    lemma_tilt_is_the_gradient(k, f.x, f.weight, wave, t.0, size, g);
    lemma_tilt_is_the_gradient(k, f.y, f.weight, wave, t.1, size, g);
}

/// A shot wanders along its tilt: where the phase of the field rises by one gradient along
/// x, the spot is off along x by the focal length times the tilt, and the same along y.
pub proof fn law_wander_is_along_the_tilt<K: IgnitionCase>(
    k: K,
    p: IgnitionParams<K::Real>,
    disc: Disc<K::Real>,
    field: Field<K::Real, K::Complex>,
    w: (K::Real, K::Real),
    size: spec_fn(K::Real) -> real,
    g: real,
)
    requires
        flows_exactly(k, size),
        is_wander_found(k, p, disc, field, Ok(w)),
        forall|a: K::Real, b: K::Real, c: K::Real| #[trigger]
            call_ensures(K::times, (&k, a, b), c) ==> size(c) == size(a) * size(b),
        forall|a: K::Real| #[trigger]
            call_ensures(K::wavenumber_of, (&k, p.wavelength), a) ==> size(a) != 0real,
    ensures
        exists|wave: K::Real| #[trigger]
            call_ensures(K::wavenumber_of, (&k, p.wavelength), wave) && (rises_along_x(
                k,
                field.u@,
                size,
                g,
            ) ==> size(w.0) * size(wave) == size(p.focal_length) * g) && (rises_along_y(
                k,
                field.u@,
                size,
                g,
            ) ==> size(w.1) * size(wave) == size(p.focal_length) * g),
{
    let t = choose|t: (K::Real, K::Real)| #[trigger]
        is_tilt_of_field(k, disc, field, p.wavelength, Ok(t)) && is_wander(k, p.focal_length, t, w);
    let samples = choose|samples: Seq<(usize, usize)>| #[trigger]
        is_pupil_of(k, disc, samples) && is_field_tilt(
            k,
            disc.grid.n as int,
            field,
            p.wavelength,
            samples,
            Ok(t),
        );
    law_tilt_of_a_field_is_its_gradient(
        k,
        disc.grid.n as int,
        field,
        p.wavelength,
        samples,
        t,
        size,
        g,
    );
    let wave = choose|wave: K::Real| #[trigger]
        call_ensures(K::wavenumber_of, (&k, p.wavelength), wave) && (rises_along_x(
            k,
            field.u@,
            size,
            g,
        ) ==> size(t.0) * size(wave) == g) && (rises_along_y(k, field.u@, size, g) ==> size(t.1)
            * size(wave) == g);
    let f = size(p.focal_length);
    lemma_associates(f, size(t.0), size(wave));
    lemma_associates(f, size(t.1), size(wave));
}

proof fn lemma_tilt_is_the_gradient<K: Pupil>(
    k: K,
    flow: K::Real,
    weight: K::Real,
    wave: K::Real,
    t: K::Real,
    size: spec_fn(K::Real) -> real,
    g: real,
)
    requires
        flows_exactly(k, size),
        is_tilt(k, flow, weight, wave, t),
        call_ensures(K::is_positive, (&k, weight), true),
        size(wave) != 0real,
    ensures
        size(flow) == g * size(weight) ==> size(t) * size(wave) == g,
{
    reveal(flows_exactly);
    let gradient = choose|gradient: K::Real| #[trigger]
        call_ensures(K::ratio, (&k, flow, weight), gradient) && call_ensures(
            K::ratio,
            (&k, gradient, wave),
            t,
        );
    if size(flow) == g * size(weight) {
        let (d, w) = (size(gradient), size(weight));
        lemma_cancels(d, g, w);
    }
}

} // verus!

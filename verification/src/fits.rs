//! What the fitted slopes of a run say of its points.
//!
//! A fit is exact on points that are exactly on a line: the speed that a wave reports is
//! that of its front wherever the front moves at one speed, and the slope that a breakdown
//! run reports is the exponent wherever its thresholds follow a power of the pressure.
use crate::algebra::lemma_distributes;
use crate::breakdown0d::{AirBreakdown, Kinetics, Model};
use crate::breakdown_case::{
    are_curves, are_shown, is_breakdown_run, is_case_model, is_curve_point, is_fall, is_reported,
    is_swept, BreakdownCase, BreakdownParams, BreakdownRun, Curves,
};
use crate::euler1d::tally;
use crate::lsd::{
    is_additive, is_front_position, is_mean_speed, is_sum, lemma_sum_measures, Beam1d, Column1d,
};
use crate::lsd2d::{is_front_at, Beam2d, Column2d};
use crate::lsd_case::{
    are_deviations, are_settled, is_covariance, is_deviation, is_front_speed, is_mean,
    is_speed_reported, LsdCase, LsdFrame,
};
use crate::sums::{lemma_line_sums_agree, lemma_tally_is_the_line_sum, line_sum};
use crate::validate::{
    is_loglog_slope, is_product_added, is_slope_of, is_sum_leg, is_sum_run, Fitting, LogSums,
};
use vstd::prelude::*;

verus! {

/// Sum of what is on a line.
proof fn lemma_sum_of_a_line(
    t: spec_fn(int) -> real,
    x: spec_fn(int) -> real,
    a: real,
    s: real,
    n: nat,
)
    requires
        forall|m: int| 0 <= m < n ==> #[trigger] x(m) == a + s * t(m),
    ensures
        line_sum(x, n) == (n as real) * a + s * line_sum(t, n),
    decreases n,
{
    if n > 0 {
        let m = (n - 1) as nat;
        lemma_sum_of_a_line(t, x, a, s, m);
        assert(x(n - 1) == a + s * t(n - 1));
        lemma_distributes(line_sum(t, m), t(n - 1), s);
        assert((n as real) * a == (m as real) * a + a) by (nonlinear_arith)
            requires
                n as real == m as real + 1real,
        ;
    } else {
        assert(0real * a == 0real && s * 0real == 0real) by (nonlinear_arith);
    }
}

/// Deviations from the mean of points on a line.
proof fn lemma_deviations_on_a_line(
    t: spec_fn(int) -> real,
    x: spec_fn(int) -> real,
    tx: spec_fn(int) -> real,
    tt: spec_fn(int) -> real,
    mt: real,
    mx: real,
    s: real,
    n: nat,
)
    requires
        forall|m: int| 0 <= m < n ==> #[trigger] x(m) - mx == s * (t(m) - mt),
        forall|m: int| 0 <= m < n ==> #[trigger] tx(m) == (t(m) - mt) * (x(m) - mx),
        forall|m: int| 0 <= m < n ==> #[trigger] tt(m) == (t(m) - mt) * (t(m) - mt),
    ensures
        line_sum(tx, n) == s * line_sum(tt, n),
    decreases n,
{
    if n > 0 {
        let m = (n - 1) as nat;
        lemma_deviations_on_a_line(t, x, tx, tt, mt, mx, s, m);
        assert(tx(n - 1) == (t(n - 1) - mt) * (x(n - 1) - mx));
        assert(tt(n - 1) == (t(n - 1) - mt) * (t(n - 1) - mt));
        assert(x(n - 1) - mx == s * (t(n - 1) - mt));
        let d = t(n - 1) - mt;
        assert(d * (s * d) == s * (d * d)) by (nonlinear_arith);
        lemma_distributes(line_sum(tt, m), tt(n - 1), s);
    } else {
        assert(s * 0real == 0real) by (nonlinear_arith);
    }
}

/// Squares add up to nothing below zero, and to more than nothing where one is.
proof fn lemma_squares_add_up(t: spec_fn(int) -> real, tt: spec_fn(int) -> real, mt: real, n: nat, a: int)
    requires
        forall|m: int| 0 <= m < n ==> #[trigger] tt(m) == (t(m) - mt) * (t(m) - mt),
    ensures
        line_sum(tt, n) >= 0real,
        0 <= a < n && t(a) != mt ==> line_sum(tt, n) > 0real,
    decreases n,
{
    if n > 0 {
        lemma_squares_add_up(t, tt, mt, (n - 1) as nat, a);
        assert(tt(n - 1) == (t(n - 1) - mt) * (t(n - 1) - mt));
        let d = t(n - 1) - mt;
        assert(d * d >= 0real && (d != 0real ==> d * d > 0real)) by (nonlinear_arith);
    }
}

/// The numbers of a fit are exact.
#[verifier::opaque]
pub open spec fn fits_exactly<K: LsdCase>(
    k: K,
    hydro: K::Hydro,
    worth: spec_fn(K::Real) -> real,
) -> bool {
    &&& is_additive(hydro, worth)
    &&& forall|n: usize, a: K::Real| #[trigger]
        call_ensures(K::members, (&k, n), a) ==> worth(a) == n as real
    &&& forall|a: K::Real, b: K::Real, c: K::Real| #[trigger]
        call_ensures(<K as LsdCase>::minus, (&k, a, b), c) ==> worth(c) == worth(a) - worth(b)
    &&& forall|a: K::Real, b: K::Real, c: K::Real| #[trigger]
        call_ensures(<K as LsdCase>::times, (&k, a, b), c) ==> worth(c) == worth(a) * worth(b)
    &&& forall|a: K::Real, b: K::Real| #[trigger]
        call_ensures(<K as LsdCase>::negate, (&k, a), b) ==> worth(b) == 0real - worth(a)
    &&& forall|a: K::Real, b: K::Real, c: K::Real| #[trigger]
        call_ensures(<K as LsdCase>::ratio, (&k, a, b), c) && worth(b) != 0real ==> worth(c)
            * worth(b) == worth(a)
}

proof fn lemma_mean_times_members<K: LsdCase>(
    k: K,
    hydro: K::Hydro,
    values: Seq<K::Real>,
    mean: K::Real,
    worth: spec_fn(K::Real) -> real,
)
    requires
        fits_exactly(k, hydro, worth),
        is_mean(k, hydro, values, mean),
        0 < values.len() <= usize::MAX,
    ensures
        worth(mean) * (values.len() as real) == line_sum(
            |m: int| worth(values[m]),
            values.len(),
        ),
{
    reveal(fits_exactly);
    let (n, sum) = choose|n: K::Real, sum: K::Real|
        {
            &&& #[trigger] call_ensures(K::members, (&k, values.len() as usize), n)
            &&& #[trigger] is_sum(hydro, values, sum)
            &&& call_ensures(<K as LsdCase>::ratio, (&k, sum, n), mean)
        };
    lemma_sum_measures(hydro, values, sum, worth);
    lemma_tally_is_the_line_sum(worth, values);
}

proof fn lemma_covariance_is_the_sum<K: LsdCase>(
    k: K,
    hydro: K::Hydro,
    a: Seq<K::Real>,
    mean_a: K::Real,
    b: Seq<K::Real>,
    mean_b: K::Real,
    c: K::Real,
    worth: spec_fn(K::Real) -> real,
)
    requires
        fits_exactly(k, hydro, worth),
        is_covariance(k, hydro, a, mean_a, b, mean_b, c),
    ensures
        a.len() == b.len(),
        worth(c) == line_sum(
            |m: int| (worth(a[m]) - worth(mean_a)) * (worth(b[m]) - worth(mean_b)),
            a.len(),
        ),
{
    let products = choose|products: Seq<K::Real>| #[trigger]
        are_deviations(k, a, mean_a, b, mean_b, products) && is_sum(hydro, products, c);
    assert(worth(c) == tally(worth, products)) by {
        reveal(fits_exactly);
        lemma_sum_measures(hydro, products, c, worth);
    }
    lemma_tally_is_the_line_sum(worth, products);
    let f = |m: int| worth(products[m]);
    let g = |m: int| (worth(a[m]) - worth(mean_a)) * (worth(b[m]) - worth(mean_b));
    assert forall|m: int| 0 <= m < products.len() implies #[trigger] f(m) == g(m) by {
        assert(is_deviation(k, a[m], mean_a, b[m], mean_b, products[m]));
        reveal(fits_exactly);
    }
    lemma_line_sums_agree(f, g, products.len());
}

/// A front that moves at one speed is fitted with that speed: where the place of every
/// point is `start` less `speed` times its time, and not all times are the same, the fit
/// is `speed`.
pub proof fn law_steady_front_has_its_speed<K: LsdCase>(
    k: K,
    hydro: K::Hydro,
    points: Seq<(K::Real, K::Real)>,
    d: K::Real,
    worth: spec_fn(K::Real) -> real,
    start: real,
    speed: real,
    a: int,
    b: int,
)
    requires
        fits_exactly(k, hydro, worth),
        is_front_speed(k, hydro, points, Some(d)),
        points.len() <= usize::MAX,
        forall|m: int|
            0 <= m < points.len() ==> worth((#[trigger] points[m]).1) == start - speed * worth(
                points[m].0,
            ),
        0 <= a < points.len(),
        0 <= b < points.len(),
        worth(points[a].0) != worth(points[b].0),
    ensures
        worth(d) == speed,
{
    let times = points.map_values(|q: (K::Real, K::Real)| q.0);
    let places = points.map_values(|q: (K::Real, K::Real)| q.1);
    let n = points.len();
    let (mean_t, mean_x, cov, var, down) = choose|
        mean_t: K::Real,
        mean_x: K::Real,
        cov: K::Real,
        var: K::Real,
        down: K::Real,
    |
        {
            &&& #[trigger] is_mean(k, hydro, times, mean_t)
            &&& #[trigger] is_mean(k, hydro, places, mean_x)
            &&& #[trigger] is_covariance(k, hydro, times, mean_t, places, mean_x, cov)
            &&& #[trigger] is_covariance(k, hydro, times, mean_t, times, mean_t, var)
            &&& #[trigger] call_ensures(<K as LsdCase>::negate, (&k, cov), down)
            &&& call_ensures(<K as LsdCase>::ratio, (&k, down, var), d)
        };
    lemma_mean_times_members(k, hydro, times, mean_t, worth);
    lemma_mean_times_members(k, hydro, places, mean_x, worth);
    lemma_covariance_is_the_sum(k, hydro, times, mean_t, places, mean_x, cov, worth);
    lemma_covariance_is_the_sum(k, hydro, times, mean_t, times, mean_t, var, worth);
    let t = |m: int| worth(times[m]);
    let x = |m: int| worth(places[m]);
    let s = 0real - speed;
    assert forall|m: int| 0 <= m < n implies #[trigger] x(m) == start + s * t(m) by {
        assert(worth(points[m].1) == start - speed * worth(points[m].0));
        let w = worth(points[m].0);
        assert((0real - speed) * w == 0real - speed * w) by (nonlinear_arith);
    }
    lemma_sum_of_a_line(t, x, start, s, n);
    let (mt, mx, c) = (worth(mean_t), worth(mean_x), n as real);
    assert(mx == start + s * mt) by (nonlinear_arith)
        requires
            c > 0real,
            mx * c == c * start + s * (mt * c),
    ;
    assert forall|m: int| 0 <= m < n implies #[trigger] x(m) - mx == s * (t(m) - mt) by {
        assert(x(m) == start + s * t(m));
        lemma_distributes(t(m), mt, s);
    }
    let tx = |m: int| (worth(times[m]) - worth(mean_t)) * (worth(places[m]) - worth(mean_x));
    let tt = |m: int| (worth(times[m]) - worth(mean_t)) * (worth(times[m]) - worth(mean_t));
    lemma_deviations_on_a_line(t, x, tx, tt, mt, mx, s, n);
    let apart = if t(a) != mt {
        a
    } else {
        b
    };
    lemma_squares_add_up(t, tt, mt, n, apart);
    assert(worth(d) * worth(var) == speed * worth(var)) by {
        reveal(fits_exactly);
        let v = worth(var);
        assert(0real - (0real - speed) * v == speed * v) by (nonlinear_arith);
    }
    let (w, v) = (worth(d), worth(var));
    assert(w == speed) by (nonlinear_arith)
        requires
            w * v == speed * v,
            v > 0real,
    ;
}

/// The settled points are the times and the fronts of frames of the later half, in
/// order.
proof fn lemma_settled_points<K: LsdCase>(
    k: K,
    frames: Seq<LsdFrame<K::Real>>,
    from: int,
    upto: int,
    points: Seq<(K::Real, K::Real)>,
    m: int,
) -> (i: int)
    requires
        are_settled(k, frames, from, upto, points),
        0 <= from,
        upto <= frames.len(),
        0 <= m < points.len(),
    ensures
        from <= i < upto,
        frames[i].front_x == Some(points[m].1),
        frames[i].time == points[m].0,
    decreases upto - from,
{
    let f = frames[upto - 1];
    match f.front_x {
        None => lemma_settled_points(k, frames, from, upto - 1, points, m),
        Some(x) => {
            if are_settled(k, frames, from, upto - 1, points) {
                lemma_settled_points(k, frames, from, upto - 1, points, m)
            } else if m == points.len() - 1 {
                upto - 1
            } else {
                lemma_settled_points(k, frames, from, upto - 1, points.drop_last(), m)
            }
        },
    }
}

/// A frame of the later half whose front was found, and is finite, is among the settled
/// points.
proof fn lemma_front_is_settled<K: LsdCase>(
    k: K,
    frames: Seq<LsdFrame<K::Real>>,
    from: int,
    upto: int,
    points: Seq<(K::Real, K::Real)>,
    i: int,
) -> (m: int)
    requires
        are_settled(k, frames, from, upto, points),
        0 <= from <= i < upto <= frames.len(),
        frames[i].front_x is Some,
        !call_ensures(K::is_finite, (&k, frames[i].front_x->0), false),
    ensures
        0 <= m < points.len(),
        points[m] == (frames[i].time, frames[i].front_x->0),
    decreases upto - from,
{
    let f = frames[upto - 1];
    if i == upto - 1 {
        points.len() - 1
    } else {
        match f.front_x {
            None => lemma_front_is_settled(k, frames, from, upto - 1, points, i),
            Some(x) => {
                if are_settled(k, frames, from, upto - 1, points) {
                    lemma_front_is_settled(k, frames, from, upto - 1, points, i)
                } else {
                    let m = lemma_front_is_settled(
                        k,
                        frames,
                        from,
                        upto - 1,
                        points.drop_last(),
                        i,
                    );
                    m
                }
            },
        }
    }
}

/// The speed that a wave reports is that of its front, once it has settled: where the
/// front moves at one speed over the later half of the frames, whatever it did before,
/// that speed is reported.
pub proof fn law_reported_speed_is_that_of_the_settled_front<K: LsdCase>(
    k: K,
    hydro: K::Hydro,
    frames: Seq<LsdFrame<K::Real>>,
    d: K::Real,
    worth: spec_fn(K::Real) -> real,
    start: real,
    speed: real,
    a: int,
    b: int,
)
    requires
        fits_exactly(k, hydro, worth),
        is_speed_reported(k, hydro, frames, Some(d)),
        frames.len() <= usize::MAX,
        forall|i: int|
            frames.len() as int / 2 <= i < frames.len() && (#[trigger] frames[i]).front_x is Some
                ==> worth(frames[i].front_x->0) == start - speed * worth(frames[i].time),
        frames.len() as int / 2 <= a < frames.len(),
        frames.len() as int / 2 <= b < frames.len(),
        frames[a].front_x is Some,
        frames[b].front_x is Some,
        !call_ensures(K::is_finite, (&k, frames[a].front_x->0), false),
        !call_ensures(K::is_finite, (&k, frames[b].front_x->0), false),
        worth(frames[a].time) != worth(frames[b].time),
    ensures
        worth(d) == speed,
{
    let (from, upto) = (frames.len() as int / 2, frames.len() as int);
    let points = choose|points: Seq<(K::Real, K::Real)>| #[trigger]
        are_settled(k, frames, from, upto, points) && is_front_speed(k, hydro, points, Some(d));
    assert forall|m: int| 0 <= m < points.len() implies worth((#[trigger] points[m]).1) == start
        - speed * worth(points[m].0) by {
        let i = lemma_settled_points(k, frames, from, upto, points, m);
        assert(frames[i].front_x is Some);
    }
    lemma_settled_are_few(k, frames, from, upto, points);
    let x = lemma_front_is_settled(k, frames, from, upto, points, a);
    let y = lemma_front_is_settled(k, frames, from, upto, points, b);
    law_steady_front_has_its_speed(k, hydro, points, d, worth, start, speed, x, y);
}

proof fn lemma_settled_are_few<K: LsdCase>(
    k: K,
    frames: Seq<LsdFrame<K::Real>>,
    from: int,
    upto: int,
    points: Seq<(K::Real, K::Real)>,
)
    requires
        are_settled(k, frames, from, upto, points),
        0 <= from <= upto <= frames.len(),
    ensures
        points.len() <= upto - from,
    decreases upto - from,
{
    if from < upto {
        match frames[upto - 1].front_x {
            None => {
                lemma_settled_are_few(k, frames, from, upto - 1, points);
            },
            Some(x) => {
                if are_settled(k, frames, from, upto - 1, points) {
                    lemma_settled_are_few(k, frames, from, upto - 1, points);
                } else {
                    lemma_settled_are_few(k, frames, from, upto - 1, points.drop_last());
                }
            },
        }
    }
}

/// The numbers of a fit in logarithms are exact.
#[verifier::opaque]
pub open spec fn fits_logarithms<F: Fitting>(f: F, worth: spec_fn(F::Real) -> real) -> bool {
    &&& forall|z: F::Real| #[trigger] call_ensures(F::zero, (&f,), z) ==> worth(z) == 0real
    &&& forall|a: F::Real, b: F::Real, c: F::Real| #[trigger]
        call_ensures(F::plus, (&f, a, b), c) ==> worth(c) == worth(a) + worth(b)
    &&& forall|a: F::Real, b: F::Real, c: F::Real| #[trigger]
        call_ensures(F::times, (&f, a, b), c) ==> worth(c) == worth(a) * worth(b)
    &&& forall|n: usize, x: F::Real, xx: F::Real, s: F::Real| #[trigger]
        call_ensures(F::spread, (&f, n, x, xx), s) ==> worth(s) == (n as real) * worth(xx) - worth(x)
            * worth(x)
    &&& forall|s: F::Real| #[trigger]
        call_ensures(F::is_degenerate, (&f, s), false) ==> worth(s) != 0real
    &&& forall|n: usize, x: F::Real, y: F::Real, xy: F::Real, s: F::Real, r: F::Real| #[trigger]
        call_ensures(F::slope, (&f, n, x, y, xy, s), r) ==> worth(r) * worth(s) == (n as real)
            * worth(xy) - worth(x) * worth(y)
}

/// A power law, in logarithms, over the first points of a curve.
proof fn lemma_sums_of_a_power_law<F: Fitting>(
    f: F,
    curve: Seq<(F::Real, F::Real)>,
    run: Seq<LogSums<F::Real>>,
    worth: spec_fn(F::Real) -> real,
    a: real,
    s: real,
    i: nat,
)
    requires
        fits_logarithms(f, worth),
        is_sum_run(f, curve, run),
        forall|m: int, x: F::Real, y: F::Real|
            #![trigger call_ensures(F::logarithm, (&f, curve[m].0), x), call_ensures(F::logarithm, (&f, curve[m].1), y)]
            0 <= m < curve.len() && call_ensures(F::logarithm, (&f, curve[m].0), x) && call_ensures(
                F::logarithm,
                (&f, curve[m].1),
                y,
            ) ==> worth(y) == a + s * worth(x),
        i < run.len(),
    ensures
        worth(run[i as int].y) == (i as real) * a + s * worth(run[i as int].x),
        worth(run[i as int].xy) == a * worth(run[i as int].x) + s * worth(run[i as int].xx),
    decreases i,
{
    if i > 0 {
        let m = (i - 1) as nat;
        lemma_sums_of_a_power_law(f, curve, run, worth, a, s, m);
        assert(is_sum_leg(f, curve, run, m as int));
        let (p, q) = (run[m as int], run[i as int]);
        let point = curve[m as int];
        let (x, y) = choose|x: F::Real, y: F::Real|
            {
                &&& #[trigger] call_ensures(F::logarithm, (&f, point.0), x)
                &&& #[trigger] call_ensures(F::logarithm, (&f, point.1), y)
                &&& call_ensures(F::plus, (&f, p.x, x), q.x)
                &&& call_ensures(F::plus, (&f, p.y, y), q.y)
                &&& is_product_added(f, p.xx, x, x, q.xx)
                &&& is_product_added(f, p.xy, x, y, q.xy)
            };
        let (wx, wy) = (worth(x), worth(y));
        assert(worth(q.x) == worth(p.x) + wx && worth(q.y) == worth(p.y) + wy && worth(q.xx)
            == worth(p.xx) + wx * wx && worth(q.xy) == worth(p.xy) + wx * wy) by {
            reveal(fits_logarithms);
        }
        let (sx, sxx) = (worth(p.x), worth(p.xx));
        lemma_distributes(sx, wx, s);
        lemma_distributes(sx, wx, a);
        lemma_distributes(sxx, wx * wx, s);
        assert(wx * (a + s * wx) == a * wx + s * (wx * wx)) by (nonlinear_arith);
        assert((i as real) * a == (m as real) * a + a) by (nonlinear_arith)
            requires
                i as real == m as real + 1real,
        ;
    } else {
        reveal(fits_logarithms);
        assert(0real * a == 0real && s * 0real == 0real && a * 0real == 0real) by (nonlinear_arith);
    }
}

/// A power law is fitted with its exponent: where the logarithm of every value is `a`
/// and `s` times the logarithm of its place, the slope is `s`.
pub proof fn law_power_law_has_its_exponent<F: Fitting>(
    f: F,
    curve: Seq<(F::Real, F::Real)>,
    slope: F::Real,
    worth: spec_fn(F::Real) -> real,
    a: real,
    s: real,
)
    requires
        fits_logarithms(f, worth),
        is_loglog_slope(f, curve, Some(slope)),
        curve.len() <= usize::MAX,
        forall|m: int, x: F::Real, y: F::Real|
            #![trigger call_ensures(F::logarithm, (&f, curve[m].0), x), call_ensures(F::logarithm, (&f, curve[m].1), y)]
            0 <= m < curve.len() && call_ensures(F::logarithm, (&f, curve[m].0), x) && call_ensures(
                F::logarithm,
                (&f, curve[m].1),
                y,
            ) ==> worth(y) == a + s * worth(x),
    ensures
        worth(slope) == s,
{
    let n = curve.len() as usize;
    let run = choose|run: Seq<LogSums<F::Real>>| #[trigger]
        is_sum_run(f, curve, run) && run.len() == curve.len() + 1 && is_slope_of(
            f,
            n,
            run.last(),
            Some(slope),
        );
    let last = run.last();
    lemma_sums_of_a_power_law(f, curve, run, worth, a, s, curve.len());
    let spread = choose|spread: F::Real|
        {
            &&& #[trigger] call_ensures(F::spread, (&f, n, last.x, last.xx), spread)
            &&& call_ensures(F::is_degenerate, (&f, spread), false)
            &&& call_ensures(F::slope, (&f, n, last.x, last.y, last.xy, spread), slope)
        };
    let (sx, sy, sxx, sxy) = (worth(last.x), worth(last.y), worth(last.xx), worth(last.xy));
    let (c, w, r) = (n as real, worth(spread), worth(slope));
    assert(w == c * sxx - sx * sx && w != 0real && r * w == c * sxy - sx * sy) by {
        reveal(fits_logarithms);
    }
    assert(c * (a * sx + s * sxx) - sx * (c * a + s * sx) == s * (c * sxx - sx * sx))
        by (nonlinear_arith);
    assert(r == s) by (nonlinear_arith)
        requires
            r * w == s * w,
            w != 0real,
    ;
}

/// The slopes that a breakdown run reports belong to the curves that it reports: where
/// the thresholds of the run, of its flat edge or of its steep edge follow a power of the
/// pressure, the slope of the run, the first or the second of the envelope is the power
/// by which they fall.
pub proof fn law_reported_slopes_are_those_of_the_curves<
    K: BreakdownCase,
    F: Fitting<Real = K::Real>,
>(
    k: K,
    fit: F,
    p: BreakdownParams<K::Real>,
    run: BreakdownRun<K::Real>,
    worth: spec_fn(K::Real) -> real,
    unit: real,
    a: real,
    n: real,
)
    requires
        is_breakdown_run(k, fit, p, Ok(run)),
        fits_logarithms(fit, worth),
        forall|model: AirBreakdown<K>, x: K::Real, y: K::Real, u: K::Real, v: K::Real|
            #![trigger is_case_model(k, p.wavelength, Ok(model)), call_ensures(K::per_square_centimetre, (&model@.kinetics, x), y), call_ensures(F::logarithm, (&fit, x), u), call_ensures(F::logarithm, (&fit, y), v)]
            is_case_model(k, p.wavelength, Ok(model)) && call_ensures(
                K::per_square_centimetre,
                (&model@.kinetics, x),
                y,
            ) && call_ensures(F::logarithm, (&fit, x), u) && call_ensures(
                F::logarithm,
                (&fit, y),
                v,
            ) ==> worth(v) == worth(u) + unit,
        forall|x: K::Real| #[trigger] has_logarithm(fit, x),
        forall|model: AirBreakdown<K>, x: K::Real, y: K::Real|
            #![trigger is_case_model(k, p.wavelength, Ok(model)), call_ensures(<K as Kinetics>::negate, (&model@.kinetics, x), y)]
            is_case_model(k, p.wavelength, Ok(model)) && call_ensures(
                <K as Kinetics>::negate,
                (&model@.kinetics, x),
                y,
            ) ==> worth(y) == 0real - worth(x),
        forall|model: AirBreakdown<K>, j: usize, x: K::Real, y: K::Real|
            #![trigger is_case_model(k, p.wavelength, Ok(model)), call_ensures(K::sweep_pressure, (&model@.kinetics, p.p_min_torr, p.p_max_torr, j, p.points), x), call_ensures(K::sweep_pressure, (&model@.kinetics, p.p_min_torr, p.p_max_torr, j, p.points), y)]
            is_case_model(k, p.wavelength, Ok(model)) && call_ensures(
                K::sweep_pressure,
                (&model@.kinetics, p.p_min_torr, p.p_max_torr, j, p.points),
                x,
            ) && call_ensures(
                K::sweep_pressure,
                (&model@.kinetics, p.p_min_torr, p.p_max_torr, j, p.points),
                y,
            ) ==> x == y,
    ensures
        falls_by(fit, run.pressure_torr@, run.threshold@, worth, a, n) ==> worth(run.slope) == n,
        falls_by(fit, run.pressure_torr@, run.threshold_lo_slope@, worth, a, n) ==> worth(
            run.slope_envelope.0,
        ) == n,
        falls_by(fit, run.pressure_torr@, run.threshold_hi_slope@, worth, a, n) ==> worth(
            run.slope_envelope.1,
        ) == n,
{
    let model = choose|model: AirBreakdown<K>| #[trigger]
        is_case_model(k, p.wavelength, Ok(model)) && is_swept(model@, fit, p, Ok(run));
    let m = model@;
    let (flat, steep, c) = choose|flat: Model<K>, steep: Model<K>, c: Curves<K::Real>| #[trigger]
        are_curves(m, flat, steep, p, c) && is_reported(m, fit, p, c, run);
    assert forall|i: int| 0 <= i < p.points implies {
        &&& run.pressure_torr@[i] == (#[trigger] c.central[i]).0
        &&& c.flat[i].0 == c.central[i].0
        &&& c.steep[i].0 == c.central[i].0
    } by {
        assert(is_curve_point(m, p, i, c.central[i].0, Ok(c.central[i].1)));
        assert(is_curve_point(flat, p, i, c.flat[i].0, Ok(c.flat[i].1)));
        assert(is_curve_point(steep, p, i, c.steep[i].0, Ok(c.steep[i].1)));
    }
    if falls_by(fit, run.pressure_torr@, run.threshold@, worth, a, n) {
        lemma_fall_of_a_power_law(
            m,
            fit,
            run.pressure_torr@,
            c.central,
            run.threshold@,
            run.slope,
            worth,
            unit,
            a,
            n,
        );
    }
    if falls_by(fit, run.pressure_torr@, run.threshold_lo_slope@, worth, a, n) {
        lemma_fall_of_a_power_law(
            m,
            fit,
            run.pressure_torr@,
            c.flat,
            run.threshold_lo_slope@,
            run.slope_envelope.0,
            worth,
            unit,
            a,
            n,
        );
    }
    if falls_by(fit, run.pressure_torr@, run.threshold_hi_slope@, worth, a, n) {
        lemma_fall_of_a_power_law(
            m,
            fit,
            run.pressure_torr@,
            c.steep,
            run.threshold_hi_slope@,
            run.slope_envelope.1,
            worth,
            unit,
            a,
            n,
        );
    }
}

/// A number has a logarithm.
pub open spec fn has_logarithm<F: Fitting>(fit: F, x: F::Real) -> bool {
    exists|y: F::Real| #[trigger] call_ensures(F::logarithm, (&fit, x), y)
}

/// Some values fall by a power of their places: in logarithms each is `a` less `n` times
/// its place.
pub open spec fn falls_by<F: Fitting>(
    fit: F,
    places: Seq<F::Real>,
    values: Seq<F::Real>,
    worth: spec_fn(F::Real) -> real,
    a: real,
    n: real,
) -> bool {
    forall|m: int, x: F::Real, y: F::Real|
        #![trigger call_ensures(F::logarithm, (&fit, places[m]), x), call_ensures(F::logarithm, (&fit, values[m]), y)]
        0 <= m < values.len() && call_ensures(F::logarithm, (&fit, places[m]), x) && call_ensures(
            F::logarithm,
            (&fit, values[m]),
            y,
        ) ==> worth(y) == a - n * worth(x)
}

proof fn lemma_fall_of_a_power_law<K: BreakdownCase, F: Fitting<Real = K::Real>>(
    m: Model<K>,
    fit: F,
    places: Seq<K::Real>,
    curve: Seq<(K::Real, K::Real)>,
    shown: Seq<K::Real>,
    fall: K::Real,
    worth: spec_fn(K::Real) -> real,
    unit: real,
    a: real,
    n: real,
)
    requires
        fits_logarithms(fit, worth),
        are_shown(m.kinetics, curve, shown),
        is_fall(m.kinetics, fit, curve, Some(fall)),
        curve.len() <= usize::MAX,
        forall|i: int| 0 <= i < curve.len() ==> (#[trigger] curve[i]).0 == places[i],
        falls_by(fit, places, shown, worth, a, n),
        forall|x: K::Real, y: K::Real, u: K::Real, v: K::Real|
            #![trigger call_ensures(K::per_square_centimetre, (&m.kinetics, x), y), call_ensures(F::logarithm, (&fit, x), u), call_ensures(F::logarithm, (&fit, y), v)]
            call_ensures(K::per_square_centimetre, (&m.kinetics, x), y) && call_ensures(
                F::logarithm,
                (&fit, x),
                u,
            ) && call_ensures(F::logarithm, (&fit, y), v) ==> worth(v) == worth(u) + unit,
        forall|x: K::Real| #[trigger] has_logarithm(fit, x),
        forall|x: K::Real, y: K::Real| #[trigger]
            call_ensures(<K as Kinetics>::negate, (&m.kinetics, x), y) ==> worth(y) == 0real
                - worth(x),
    ensures
        worth(fall) == n,
{
    let slope = choose|slope: K::Real| #[trigger]
        is_loglog_slope(fit, curve, Some(slope)) && call_ensures(
            <K as Kinetics>::negate,
            (&m.kinetics, slope),
            fall,
        );
    let s = 0real - n;
    assert forall|i: int, x: K::Real, y: K::Real|
        #![trigger call_ensures(F::logarithm, (&fit, curve[i].0), x), call_ensures(F::logarithm, (&fit, curve[i].1), y)]
        0 <= i < curve.len() && call_ensures(F::logarithm, (&fit, curve[i].0), x) && call_ensures(
            F::logarithm,
            (&fit, curve[i].1),
            y,
        ) implies worth(y) == (a - unit) + s * worth(x) by {
        assert(curve[i].0 == places[i]);
        assert(call_ensures(K::per_square_centimetre, (&m.kinetics, curve[i].1), shown[i]));
        assert(has_logarithm(fit, shown[i]));
        let v = choose|v: K::Real| #[trigger] call_ensures(F::logarithm, (&fit, shown[i]), v);
        assert(worth(v) == a - n * worth(x));
        let w = worth(x);
        assert((0real - n) * w == 0real - n * w) by (nonlinear_arith);
    }
    law_power_law_has_its_exponent(fit, curve, slope, worth, a - unit, s);
}

/// The mean speed of a front is how far it went over how long it took: the front of the
/// column before the span and that after it, over the times of the two.
pub proof fn law_mean_speed_is_over_the_span<H: Beam1d>(
    pre: Column1d<H>,
    x0: H::Real,
    post: Column1d<H>,
    v: H::Real,
    worth: spec_fn(H::Real) -> real,
) -> (x1: H::Real)
    requires
        is_mean_speed(pre, x0, post, v),
        forall|a: H::Real, b: H::Real, s: H::Real, t: H::Real, w: H::Real| #[trigger]
            call_ensures(H::mean_speed, (&post.hydro.scheme, a, b, s, t), w) && worth(s) != worth(t)
                ==> worth(w) * (worth(t) - worth(s)) == worth(b) - worth(a),
        worth(pre.hydro.time) != worth(post.hydro.time),
    ensures
        is_front_position(post, Some(x1)),
        worth(v) * (worth(post.hydro.time) - worth(pre.hydro.time)) == worth(x1) - worth(x0),
{
    choose|x1: H::Real| #[trigger]
        is_front_position(post, Some(x1)) && call_ensures(
            H::mean_speed,
            (&post.hydro.scheme, x0, x1, pre.hydro.time, post.hydro.time),
            v,
        )
}

/// The same of a wide column, whose front is the one on its axis.
pub proof fn law_mean_speed_is_that_of_the_axis<K: Beam2d>(
    pre: Column2d<K>,
    x0: K::Real,
    post: Column2d<K>,
    v: K::Real,
    worth: spec_fn(K::Real) -> real,
) -> (x1: K::Real)
    requires
        crate::lsd2d::is_mean_speed(pre, x0, post, v),
        forall|a: K::Real, b: K::Real, s: K::Real, t: K::Real, w: K::Real| #[trigger]
            call_ensures(<K::Line as Beam1d>::mean_speed, (&post.line, a, b, s, t), w) && worth(s)
                != worth(t) ==> worth(w) * (worth(t) - worth(s)) == worth(b) - worth(a),
        worth(pre.hydro.time) != worth(post.hydro.time),
    ensures
        is_front_at(post, 0, Some(x1)),
        worth(v) * (worth(post.hydro.time) - worth(pre.hydro.time)) == worth(x1) - worth(x0),
{
    choose|x1: K::Real| #[trigger]
        is_front_at(post, 0, Some(x1)) && call_ensures(
            <K::Line as Beam1d>::mean_speed,
            (&post.line, x0, x1, pre.hydro.time, post.hydro.time),
            v,
        )
}

} // verus!

//! What the shots of an ignition ensemble say of each other.
//!
//! A shot is lit by the intensity at its focus: no unlit shot is brighter than a lit one,
//! and the two kinds meet at the threshold. The summary of an ensemble is the average of
//! its shots, and a shot through still air has the focus of the vacuum.
use crate::avalanche::lemma_threshold_is_bracketed;
use crate::breakdown0d::{Kinetics, Model};
use crate::cases::{has_arrived, is_mean, Arrival, Path};
use crate::exposure::{averages_exactly, law_mean_is_the_average};
use crate::ignition_case::{
    are_squares, beam_of, bench_of, count_lit, guards_of, is_ensemble_run, is_focus,
    is_ignition_run, is_judged, is_prepared, is_reference_found, is_shot, is_summary, Bench,
    IgnitionCase, IgnitionError, IgnitionParams, IgnitionRun, Prepared, Shot,
};
use crate::ignition_replay::{lemma_focus_is_one, prepares_alike, sees_alike};
use crate::ignition_sweep::{
    at_strength, is_ignition_sweep, is_point, is_point_of, is_strength, ratios_of,
    IgnitionSweepCase, IgnitionSweepParams, IgnitionSweepRun,
};
use crate::medium::{Medium, Vacuum};
use crate::replay::is_reproducible;
use crate::sums::{lemma_line_sums_agree, line_sum};
use vstd::prelude::*;

verus! {

/// The preparation of an ensemble and its shots, one by one.
proof fn lemma_shots_of<K: IgnitionCase>(
    k: K,
    p: IgnitionParams<K::Real>,
    run: IgnitionRun<K::Real>,
) -> (m: Prepared<K>)
    requires
        is_ignition_run(k, p, Ok(run)),
    ensures
        is_prepared(k, p, 6, m),
        run.shots@.len() == p.realizations > 0,
        is_summary(k, m.i_focus_vacuum, m.i_threshold, run.shots@, run),
        forall|i: int|
            0 <= i < run.shots@.len() ==> is_shot(
                k,
                p,
                bench_of(m),
                i as u64,
                Ok::<_, IgnitionError<K::Real, <K::Path as Medium<K>>::Refusal>>(
                    #[trigger] run.shots@[i],
                ),
            ),
{
    let (m, results) = choose|
        m: Prepared<K>,
        results: Seq<Result<Shot<K::Real>, IgnitionError<K::Real, <K::Path as Medium<K>>::Refusal>>>,
    | #[trigger]
        is_ensemble_run(k, p, m, results, Ok(run));
    assert forall|i: int| 0 <= i < run.shots@.len() implies is_shot(
        k,
        p,
        bench_of(m),
        i as u64,
        Ok::<_, IgnitionError<K::Real, <K::Path as Medium<K>>::Refusal>>(#[trigger] run.shots@[i]),
    ) by {
        assert(is_shot(k, p, bench_of(m), i as u64, results[i]));
    }
    m
}

/// One where a shot is lit, nothing where it is not.
pub open spec fn lit_as_number<R>(s: Shot<R>) -> real {
    if s.ignited {
        1real
    } else {
        0real
    }
}

proof fn lemma_count_is_the_sum<R>(shots: Seq<Shot<R>>)
    ensures
        count_lit(shots) as real == line_sum(|i: int| lit_as_number(shots[i]), shots.len()),
        count_lit(shots) <= shots.len(),
    decreases shots.len(),
{
    if shots.len() > 0 {
        let head = shots.drop_last();
        lemma_count_is_the_sum(head);
        lemma_line_sums_agree(
            |i: int| lit_as_number(head[i]),
            |i: int| lit_as_number(shots[i]),
            head.len(),
        );
    }
}

/// The probability of ignition is the share of the shots that are lit, the mean guard
/// fraction is the average of theirs, and the square of the wander is the average of the
/// squares of theirs.
pub proof fn law_summary_is_the_average_of_the_shots<K: IgnitionCase>(
    k: K,
    p: IgnitionParams<K::Real>,
    run: IgnitionRun<K::Real>,
    worth: spec_fn(K::Real) -> real,
)
    requires
        is_ignition_run(k, p, Ok(run)),
        averages_exactly(k, worth),
        forall|w: (K::Real, K::Real), q: K::Real| #[trigger]
            call_ensures(K::square_length, (&k, w), q) ==> worth(q) == worth(w.0) * worth(w.0)
                + worth(w.1) * worth(w.1),
        forall|x: K::Real, r: K::Real| #[trigger]
            call_ensures(K::root, (&k, x), r) ==> worth(r) * worth(r) == worth(x),
    ensures
        run.shots@.len() == p.realizations,
        worth(run.p_ignite) * (p.realizations as real) == line_sum(
            |i: int| lit_as_number(run.shots@[i]),
            p.realizations as nat,
        ),
        worth(run.guard_frac_mean) * (p.realizations as real) == line_sum(
            |i: int| worth(run.shots@[i].guard_frac),
            p.realizations as nat,
        ),
        worth(run.wander_rms) * worth(run.wander_rms) * (p.realizations as real) == line_sum(
            |i: int|
                worth(run.shots@[i].wander.0) * worth(run.shots@[i].wander.0) + worth(
                    run.shots@[i].wander.1,
                ) * worth(run.shots@[i].wander.1),
            p.realizations as nat,
        ),
{
    let m = lemma_shots_of(k, p, run);
    let (shots, n) = (run.shots@, p.realizations as nat);
    let (lit, all) = choose|lit: K::Real, all: K::Real|
        {
            &&& #[trigger] call_ensures(K::members, (&k, count_lit(shots) as usize), lit)
            &&& #[trigger] call_ensures(K::members, (&k, shots.len() as usize), all)
            &&& call_ensures(K::ratio, (&k, lit, all), run.p_ignite)
        };
    lemma_count_is_the_sum(shots);
    assert(worth(run.p_ignite) * (n as real) == count_lit(shots) as real) by {
        reveal(averages_exactly);
    }
    let guards = guards_of(shots);
    law_mean_is_the_average(k, guards, run.guard_frac_mean, worth);
    lemma_line_sums_agree(
        |i: int| worth(guards[i]),
        |i: int| worth(shots[i].guard_frac),
        n,
    );
    let (squares, mean) = choose|squares: Seq<K::Real>, mean: K::Real|
        {
            &&& are_squares(k, shots, squares)
            &&& #[trigger] is_mean(k, squares, mean)
            &&& call_ensures(K::root, (&k, mean), run.wander_rms)
        };
    law_mean_is_the_average(k, squares, mean, worth);
    let f = |i: int| worth(squares[i]);
    let g = |i: int|
        worth(shots[i].wander.0) * worth(shots[i].wander.0) + worth(shots[i].wander.1) * worth(
            shots[i].wander.1,
        );
    assert forall|i: int| 0 <= i < n implies #[trigger] f(i) == g(i) by {
        assert(call_ensures(K::square_length, (&k, shots[i].wander), squares[i]));
    }
    lemma_line_sums_agree(f, g, n);
    assert(worth(run.wander_rms) * worth(run.wander_rms) == worth(mean));
}

/// A stronger pulse breaks a gas down where a weaker one does.
pub open spec fn strength_lights<G: Kinetics>(
    m: Model<G>,
    fwhm: G::Real,
    pressure: G::Real,
    steps: usize,
    worth: spec_fn(G::Real) -> real,
) -> bool {
    forall|x: G::Real, y: G::Real|
        #![trigger m.is_breakdown(x, fwhm, pressure, steps, true), m.is_breakdown(y, fwhm, pressure, steps, false)]
        m.is_breakdown(x, fwhm, pressure, steps, true) && m.is_breakdown(
            y,
            fwhm,
            pressure,
            steps,
            false,
        ) ==> worth(x) > worth(y)
}

/// A shot with the intensity at its focus.
proof fn lemma_focus_of<K: IgnitionCase>(
    k: K,
    p: IgnitionParams<K::Real>,
    bench: Bench<K>,
    i: u64,
    s: Shot<K::Real>,
    worth: spec_fn(K::Real) -> real,
) -> (focus: K::Real)
    requires
        is_shot(
            k,
            p,
            bench,
            i,
            Ok::<_, IgnitionError<K::Real, <K::Path as Medium<K>>::Refusal>>(s),
        ),
        forall|a: K::Real, b: K::Real, c: K::Real| #[trigger]
            call_ensures(K::ratio, (&k, a, b), c) && worth(b) != 0real ==> worth(c) * worth(b)
                == worth(a),
        worth(bench.i_focus_vacuum) != 0real,
    ensures
        worth(focus) == worth(s.focal_ratio) * worth(bench.i_focus_vacuum),
        bench.igniter.is_breakdown(focus, p.fwhm, p.p0, p.ignition_steps, s.ignited),
{
    let (path, dz, slabs) = choose|path: K::Path, dz: K::Real, slabs: usize|
        {
            &&& #[trigger] call_ensures(K::ignition_path, (&k, p, i), path)
            &&& #[trigger] call_ensures(<K::Path as Path<K>>::dz, (&path, &k), dz)
            &&& #[trigger] call_ensures(<K::Path as Path<K>>::n_slabs, (&path, &k), slabs)
            &&& exists|a: Arrival<K::Real, K::Complex>| #[trigger]
                has_arrived(k, beam_of(p), path, dz, slabs, a) && is_judged(
                    k,
                    p,
                    bench,
                    a,
                    Ok(s),
                )
        };
    let a = choose|a: Arrival<K::Real, K::Complex>| #[trigger]
        has_arrived(k, beam_of(p), path, dz, slabs, a) && is_judged(k, p, bench, a, Ok(s));
    let focus = choose|i_focus: K::Real|
        {
            &&& #[trigger] is_focus(k, p, bench.disc, bench.per_unit, a.field, i_focus)
            &&& call_ensures(K::ratio, (&k, i_focus, bench.i_focus_vacuum), s.focal_ratio)
            &&& bench.igniter.is_breakdown(i_focus, p.fwhm, p.p0, p.ignition_steps, s.ignited)
        };
    focus
}

/// No unlit shot is as bright as a lit one, and the two kinds meet at the threshold: the
/// focal intensity of a lit shot is above an intensity no higher than the threshold, that
/// of an unlit shot is below one no lower.
pub proof fn law_lit_shots_are_brighter<K: IgnitionCase>(
    k: K,
    p: IgnitionParams<K::Real>,
    run: IgnitionRun<K::Real>,
    worth: spec_fn(K::Real) -> real,
    a: int,
    b: int,
)
    requires
        is_ignition_run(k, p, Ok(run)),
        forall|x: K::Real, y: K::Real, z: K::Real| #[trigger]
            call_ensures(K::ratio, (&k, x, y), z) && worth(y) != 0real ==> worth(z) * worth(y)
                == worth(x),
        forall|x: K::Real| #[trigger]
            call_ensures(K::is_positive, (&k, x), true) ==> worth(x) > 0real,
        forall|m: Prepared<K>| #[trigger]
            is_prepared(k, p, 6, m) ==> strength_lights(
                m.igniter@,
                p.fwhm,
                p.p0,
                p.ignition_steps,
                worth,
            ),
        0 <= a < run.shots@.len(),
        0 <= b < run.shots@.len(),
        run.shots@[a].ignited,
        !run.shots@[b].ignited,
    ensures
        worth(run.shots@[a].focal_ratio) > worth(run.shots@[b].focal_ratio),
{
    let m = lemma_shots_of(k, p, run);
    let bench = bench_of(m);
    assert(call_ensures(K::is_positive, (&k, m.i_focus_vacuum), true));
    let x = lemma_focus_of(k, p, bench, a as u64, run.shots@[a], worth);
    let y = lemma_focus_of(k, p, bench, b as u64, run.shots@[b], worth);
    let (q, r, v) = (
        worth(run.shots@[a].focal_ratio),
        worth(run.shots@[b].focal_ratio),
        worth(m.i_focus_vacuum),
    );
    assert(q > r) by (nonlinear_arith)
        requires
            q * v > r * v,
            v > 0real,
    ;
}

/// The threshold of a run parts its shots: a lit shot has a focal intensity above some
/// intensity that is no higher than the threshold, and an unlit shot one below some
/// intensity that is no lower.
pub proof fn law_threshold_parts_the_shots<K: IgnitionCase>(
    k: K,
    p: IgnitionParams<K::Real>,
    run: IgnitionRun<K::Real>,
    worth: spec_fn(K::Real) -> real,
)
    requires
        is_ignition_run(k, p, Ok(run)),
        forall|x: K::Real, y: K::Real, z: K::Real| #[trigger]
            call_ensures(K::ratio, (&k, x, y), z) && worth(y) != 0real ==> worth(z) * worth(y)
                == worth(x),
        forall|x: K::Real| #[trigger]
            call_ensures(K::is_positive, (&k, x), true) ==> worth(x) > 0real,
        forall|m: Prepared<K>| #[trigger]
            is_prepared(k, p, 6, m) ==> {
                let g = m.igniter@.kinetics;
                &&& strength_lights(m.igniter@, p.fwhm, p.p0, p.ignition_steps, worth)
                &&& forall|x: K::Real, y: K::Real, z: K::Real| #[trigger]
                    call_ensures(K::Kinetics::geometric_mean, (&g, x, y), z) && 0real <= worth(x)
                        <= worth(y) ==> worth(x) <= worth(z) <= worth(y)
                &&& forall|x: K::Real, y: K::Real|
                    #![trigger call_ensures(K::Kinetics::bracket_floor, (&g,), x), call_ensures(K::Kinetics::bracket_ceiling, (&g,), y)]
                    call_ensures(K::Kinetics::bracket_floor, (&g,), x) && call_ensures(
                        K::Kinetics::bracket_ceiling,
                        (&g,),
                        y,
                    ) ==> 0real <= worth(x) <= worth(y)
            },
    ensures
        exists|lo: K::Real, hi: K::Real| #[trigger]
            parts_the_shots(run, worth, lo, hi) && worth(lo) <= worth(run.i_threshold) <= worth(hi),
{
    let m = lemma_shots_of(k, p, run);
    let bench = bench_of(m);
    assert(call_ensures(K::is_positive, (&k, m.i_focus_vacuum), true));
    let (lo, hi) = lemma_threshold_is_bracketed(
        m.igniter@,
        p.fwhm,
        p.p0,
        p.ignition_steps,
        m.i_threshold,
        worth,
    );
    assert forall|i: int| 0 <= i < run.shots@.len() implies {
        let focus = worth((#[trigger] run.shots@[i]).focal_ratio) * worth(run.i_focus_vacuum);
        if run.shots@[i].ignited {
            focus > worth(lo)
        } else {
            focus < worth(hi)
        }
    } by {
        let x = lemma_focus_of(k, p, bench, i as u64, run.shots@[i], worth);
    }
    assert(parts_the_shots(run, worth, lo, hi));
}

/// Lit shots are above `lo` at the focus, unlit ones below `hi`.
pub open spec fn parts_the_shots<R>(
    run: IgnitionRun<R>,
    worth: spec_fn(R) -> real,
    lo: R,
    hi: R,
) -> bool {
    forall|i: int|
        0 <= i < run.shots@.len() ==> {
            let focus = worth((#[trigger] run.shots@[i]).focal_ratio) * worth(run.i_focus_vacuum);
            if run.shots@[i].ignited {
                focus > worth(lo)
            } else {
                focus < worth(hi)
            }
        }
}

/// The guard fraction of a shot is what its edge took of the power that was launched.
pub proof fn law_guard_fraction_is_of_the_launched_power<K: IgnitionCase>(
    k: K,
    p: IgnitionParams<K::Real>,
    bench: Bench<K>,
    a: Arrival<K::Real, K::Complex>,
    shot: Shot<K::Real>,
    worth: spec_fn(K::Real) -> real,
)
    requires
        is_judged(k, p, bench, a, Ok(shot)),
        forall|x: K::Real, y: K::Real, z: K::Real| #[trigger]
            call_ensures(K::ratio, (&k, x, y), z) && worth(y) != 0real ==> worth(z) * worth(y)
                == worth(x),
        worth(a.p_in) != 0real,
    ensures
        worth(shot.guard_frac) * worth(a.p_in) == worth(a.absorbed),
{
}

/// A beam that arrives as it would through vacuum has the focus of the vacuum: its focal
/// ratio is one.
pub proof fn law_still_air_has_the_focus_of_vacuum<K: IgnitionCase>(
    k: K,
    p: IgnitionParams<K::Real>,
    m: Prepared<K>,
    a: Arrival<K::Real, K::Complex>,
    s: Shot<K::Real>,
    worth: spec_fn(K::Real) -> real,
)
    requires
        is_prepared(k, p, 6, m),
        is_judged(k, p, bench_of(m), a, Ok(s)),
        is_reproducible(k),
        sees_alike(k),
        prepares_alike(k),
        forall|x: K::Real, y: K::Real, z: K::Real| #[trigger]
            call_ensures(K::ratio, (&k, x, y), z) && worth(y) != 0real ==> worth(z) * worth(y)
                == worth(x),
        worth(m.i_focus_vacuum) != 0real,
        forall|v: Vacuum, dz: K::Real, b: Arrival<K::Real, K::Complex>|
            v.spec_n() == p.n && call_ensures(K::slab, (&k, p.z, p.screens), dz)
                && #[trigger] has_arrived(k, beam_of(p), v, dz, p.screens, b) ==> b.field.u@
                == a.field.u@,
    ensures
        worth(s.focal_ratio) == 1real,
{
    let bench = bench_of(m);
    let focus = choose|i_focus: K::Real|
        {
            &&& #[trigger] is_focus(k, p, bench.disc, bench.per_unit, a.field, i_focus)
            &&& call_ensures(K::ratio, (&k, i_focus, bench.i_focus_vacuum), s.focal_ratio)
            &&& bench.igniter.is_breakdown(i_focus, p.fwhm, p.p0, p.ignition_steps, s.ignited)
        };
    let (v, dz, b) = choose|
        v: Vacuum,
        dz: K::Real,
        b: Arrival<K::Real, K::Complex>,
    | #[trigger]
        is_reference_found(k, p, m.pupil@, m.per_unit, v, dz, b, m.i_focus_vacuum);
    assert(has_arrived(k, beam_of(p), v, dz, p.screens, b));
    lemma_focus_is_one(
        k,
        p,
        bench.disc,
        bench.per_unit,
        a.field,
        b.field,
        focus,
        m.i_focus_vacuum,
    );
    let (q, w) = (worth(s.focal_ratio), worth(m.i_focus_vacuum));
    assert(q == 1real) by (nonlinear_arith)
        requires
            q * w == w,
            w != 0real,
    ;
}

/// The strengths of a sweep increase, where those of its points do; each point has the
/// aperture over its own coherence length, and the average of its own ratios.
pub proof fn law_sweep_points_are_of_their_strength<K: IgnitionSweepCase>(
    k: K,
    p: IgnitionSweepParams<K::Real>,
    run: IgnitionSweepRun<K::Real>,
    worth: spec_fn(K::Real) -> real,
    a: int,
    b: int,
)
    requires
        is_ignition_sweep(k, p, Ok(run)),
        averages_exactly(k, worth),
        forall|i: usize, j: usize, x: K::Real, y: K::Real|
            #![trigger call_ensures(K::sweep_strength, (&k, p.cn2_min, p.cn2_max, i, p.points), x), call_ensures(K::sweep_strength, (&k, p.cn2_min, p.cn2_max, j, p.points), y)]
            i < j < p.points && call_ensures(
                K::sweep_strength,
                (&k, p.cn2_min, p.cn2_max, i, p.points),
                x,
            ) && call_ensures(
                K::sweep_strength,
                (&k, p.cn2_min, p.cn2_max, j, p.points),
                y,
            ) ==> worth(x) < worth(y),
        0 <= a < b < run.points@.len(),
        worth(run.points@[a].r0) != 0real,
    ensures
        run.points@.len() == p.points,
        worth(run.points@[a].cn2) < worth(run.points@[b].cn2),
        worth(run.points@[a].d_over_r0) * worth(run.points@[a].r0) == worth(p.base.aperture),
        run.points@[a].focal_ratio@.len() == run.points@[a].strehl@.len() == p.base.realizations,
        worth(run.points@[a].mean_ratio) * (p.base.realizations as real) == line_sum(
            |i: int| worth(run.points@[a].focal_ratio@[i]),
            p.base.realizations as nat,
        ),
{
    let (q, r) = (run.points@[a], run.points@[b]);
    assert(is_point(k, p, a, q) && is_point(k, p, b, r));
    assert(is_strength(k, p, a, q.cn2) && is_strength(k, p, b, r.cn2));
    let own = choose|own: IgnitionRun<K::Real>| #[trigger]
        is_ignition_run(k, at_strength(p, q.cn2), Ok(own)) && is_point_of(k, p, own, q);
    let m = lemma_shots_of(k, at_strength(p, q.cn2), own);
    let ratios = ratios_of(own.shots@);
    law_mean_is_the_average(k, ratios, q.mean_ratio, worth);
    reveal(averages_exactly);
}

/// The coherence of a sweep point is that of its own strength over the path, and the
/// aperture is so many times as wide.
pub proof fn law_sweep_points_have_their_coherence<K: IgnitionSweepCase>(
    k: K,
    p: IgnitionSweepParams<K::Real>,
    run: IgnitionSweepRun<K::Real>,
    worth: spec_fn(K::Real) -> real,
    coherence: spec_fn(real, real, real) -> real,
    i: int,
)
    requires
        is_ignition_sweep(k, p, Ok(run)),
        forall|cn2: K::Real, wavelength: K::Real, z: K::Real, r0: K::Real| #[trigger]
            call_ensures(K::fried_r0, (&k, cn2, wavelength, z), r0) ==> worth(r0) == coherence(
                worth(cn2),
                worth(wavelength),
                worth(z),
            ),
        forall|a: K::Real, b: K::Real, c: K::Real| #[trigger]
            call_ensures(K::ratio, (&k, a, b), c) && worth(b) != 0real ==> worth(c) * worth(b)
                == worth(a),
        0 <= i < run.points@.len(),
        worth(run.points@[i].r0) != 0real,
    ensures
        worth(run.points@[i].r0) == coherence(
            worth(run.points@[i].cn2),
            worth(p.base.wavelength),
            worth(p.base.z),
        ),
        worth(run.points@[i].d_over_r0) * worth(run.points@[i].r0) == worth(p.base.aperture),
{
    assert(is_point(k, p, i, run.points@[i]));
}

} // verus!

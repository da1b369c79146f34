//! An ensemble of shots, and a sweep of ensembles, are functions of what goes into
//! them.
//!
//! Where every operation of the arithmetic is a function of its arguments, and the
//! paths of a member answer alike, the members of an ensemble are the same each time,
//! whatever their number and the order in which they run.
use crate::aperture::{
    adds_flow, adds_moduli, is_coherent_sum, is_flow, is_focal_power, is_incoherent_sum, is_no_flow,
    is_pupil_of, is_steady, is_strehl, is_walk, is_walk_run, law_pupil_is_unique, superposes, Disc,
    Flow, Pupil,
};
use crate::breakdown0d::{is_model, AirBreakdown};
use crate::breakdown_case::Setup;
use crate::breakdown_replay::{
    is_repeatable, law_breakdown_is_reproducible, law_model_is_reproducible,
    law_threshold_is_reproducible,
};
use crate::cases::{has_arrived, is_launch, is_mean, Arrival, Path};
use crate::field::{is_power, Field};
use crate::grid::Grid;
use crate::ignition_case::{
    are_squares, beam_of, bench_of, guards_of, has_own_paths, has_reference, is_ensemble_run,
    is_focus, is_fraction_lit, is_igniter, is_ignition_run, is_judged, is_prepared,
    is_reference_found, is_scale, is_shot, is_sized_otherwise, is_strehl_found, is_wander_found,
    is_wander_rms, lemma_members_are_alike, runs_alike, Bench, IgnitionCase, IgnitionError,
    IgnitionParams, IgnitionRun, Prepared, Shot,
};
use crate::ignition_sweep::{
    at_strength, curve_of, is_ascending, is_first_fall, is_ignition_sweep, is_in_order,
    is_in_order_at, is_level_passed, is_median, is_no_fall_at, is_point, is_point_of, is_sorting,
    is_transition, ratios_of, IgnitionSweepCase, IgnitionSweepParams, IgnitionSweepRun, SweepPoint,
};
use crate::medium::{Medium, Vacuum};
use crate::optics::Optics;
use crate::plane::Plane;
use crate::replay::{
    answers_alike, are_alike_paths, is_reproducible, launches_reproducibly,
    law_arrival_is_reproducible, lemma_launch_is_one, lemma_mean_is_one, numbers_reproducibly,
};
use crate::transparency::{counts_reproducibly, lemma_power_is_one, lemma_same_samples};
use vstd::prelude::*;
use vstd::relations::{sorted_by, total_ordering};
use vstd::seq_lib::lemma_sorted_unique;

verus! {

/// A pupil and what is summed over it are functions of their arguments.
#[verifier::opaque]
pub open spec fn sees_alike<K: Pupil>(k: K) -> bool {
    &&& forall|x: K::Real, a: bool, b: bool| #[trigger]
        call_ensures(K::is_positive, (&k, x), a) && #[trigger] call_ensures(
            K::is_positive,
            (&k, x),
            b,
        ) ==> a == b
    &&& forall|x: isize, y: isize, diameter: K::Real, a: bool, b: bool| #[trigger]
        call_ensures(K::is_inside, (&k, x, y, diameter), a) && #[trigger] call_ensures(
            K::is_inside,
            (&k, x, y, diameter),
            b,
        ) ==> a == b
    &&& forall|n: usize, diameter: K::Real, a: usize, b: usize| #[trigger]
        call_ensures(K::box_low, (&k, n, diameter), a) && #[trigger] call_ensures(
            K::box_low,
            (&k, n, diameter),
            b,
        ) ==> a == b
    &&& forall|n: usize, diameter: K::Real, a: usize, b: usize| #[trigger]
        call_ensures(K::box_high, (&k, n, diameter), a) && #[trigger] call_ensures(
            K::box_high,
            (&k, n, diameter),
            b,
        ) ==> a == b
    &&& forall|a: K::Complex, b: K::Complex| #[trigger]
        call_ensures(K::dark, (&k,), a) && #[trigger] call_ensures(K::dark, (&k,), b) ==> a == b
    &&& forall|x: K::Complex, y: K::Complex, a: K::Complex, b: K::Complex| #[trigger]
        call_ensures(K::superpose, (&k, x, y), a) && #[trigger] call_ensures(
            K::superpose,
            (&k, x, y),
            b,
        ) ==> a == b
    &&& forall|sum: K::Complex, a: (K::Real, K::Real), b: (K::Real, K::Real)| #[trigger]
        call_ensures(K::amplitude_integral, (&k, sum), a) && #[trigger] call_ensures(
            K::amplitude_integral,
            (&k, sum),
            b,
        ) ==> a == b
    &&& forall|u: K::Complex, a: K::Real, b: K::Real| #[trigger]
        call_ensures(K::modulus, (&k, u), a) && #[trigger] call_ensures(
            K::modulus,
            (&k, u),
            b,
        ) ==> a == b
    &&& forall|sum: K::Real, a: K::Real, b: K::Real| #[trigger]
        call_ensures(K::area_integral, (&k, sum), a) && #[trigger] call_ensures(
            K::area_integral,
            (&k, sum),
            b,
        ) ==> a == b
    &&& forall|wavelength: K::Real, a: K::Real, b: K::Real| #[trigger]
        call_ensures(K::wavenumber_of, (&k, wavelength), a) && #[trigger] call_ensures(
            K::wavenumber_of,
            (&k, wavelength),
            b,
        ) ==> a == b
    &&& forall|
        u: K::Complex,
        before: K::Complex,
        after: K::Complex,
        a: K::Real,
        b: K::Real,
    | #[trigger]
        call_ensures(K::flow, (&k, u, before, after), a) && #[trigger] call_ensures(
            K::flow,
            (&k, u, before, after),
            b,
        ) ==> a == b
}

/// The formulas of an ensemble are functions of their arguments.
#[verifier::opaque]
pub open spec fn prepares_alike<K: IgnitionCase>(k: K) -> bool {
    &&& forall|a: K::Kinetics, b: K::Kinetics| #[trigger]
        call_ensures(K::kinetics, (&k,), a) && #[trigger] call_ensures(
            K::kinetics,
            (&k,),
            b,
        ) ==> a == b
    &&& forall|wavelength: K::Real, a: Setup<K::Real>, b: Setup<K::Real>| #[trigger]
        call_ensures(K::setup, (&k, wavelength), a) && #[trigger] call_ensures(
            K::setup,
            (&k, wavelength),
            b,
        ) ==> a == b
    &&& forall|wavelength: K::Real, focal_length: K::Real, a: K::Real, b: K::Real| #[trigger]
        call_ensures(K::focal_area, (&k, wavelength, focal_length), a) && #[trigger] call_ensures(
            K::focal_area,
            (&k, wavelength, focal_length),
            b,
        ) ==> a == b
    &&& forall|d: (K::Real, K::Real), a: K::Real, b: K::Real| #[trigger]
        call_ensures(K::square_length, (&k, d), a) && #[trigger] call_ensures(
            K::square_length,
            (&k, d),
            b,
        ) ==> a == b
    &&& forall|x: K::Real, a: K::Real, b: K::Real| #[trigger]
        call_ensures(K::root, (&k, x), a) && #[trigger] call_ensures(K::root, (&k, x), b) ==> a == b
    &&& forall|path: K::Real, steps: usize, a: K::Real, b: K::Real| #[trigger]
        call_ensures(K::slab, (&k, path, steps), a) && #[trigger] call_ensures(
            K::slab,
            (&k, path, steps),
            b,
        ) ==> a == b
}

/// The formulas of a sweep are functions of their arguments.
#[verifier::opaque]
pub open spec fn sweeps_alike<K: IgnitionSweepCase>(k: K) -> bool {
    &&& forall|lo: K::Real, hi: K::Real, i: usize, points: usize, a: K::Real, b: K::Real| #[trigger]
        call_ensures(K::sweep_strength, (&k, lo, hi, i, points), a) && #[trigger] call_ensures(
            K::sweep_strength,
            (&k, lo, hi, i, points),
            b,
        ) ==> a == b
    &&& forall|cn2: K::Real, wavelength: K::Real, z: K::Real, a: K::Real, b: K::Real| #[trigger]
        call_ensures(K::fried_r0, (&k, cn2, wavelength, z), a) && #[trigger] call_ensures(
            K::fried_r0,
            (&k, cn2, wavelength, z),
            b,
        ) ==> a == b
    &&& forall|fraction: K::Real, n: usize, a: K::Real, b: K::Real| #[trigger]
        call_ensures(K::standard_error, (&k, fraction, n), a) && #[trigger] call_ensures(
            K::standard_error,
            (&k, fraction, n),
            b,
        ) ==> a == b
    &&& forall|x: K::Real, y: K::Real, a: bool, b: bool| #[trigger]
        call_ensures(K::reaches, (&k, x, y), a) && #[trigger] call_ensures(
            K::reaches,
            (&k, x, y),
            b,
        ) ==> a == b
    &&& forall|x: K::Real, y: K::Real, a: bool, b: bool| #[trigger]
        call_ensures(K::exceeds, (&k, x, y), a) && #[trigger] call_ensures(
            K::exceeds,
            (&k, x, y),
            b,
        ) ==> a == b
    &&& forall|x: K::Real, y: K::Real, a: K::Real, b: K::Real| #[trigger]
        call_ensures(K::minus, (&k, x, y), a) && #[trigger] call_ensures(
            K::minus,
            (&k, x, y),
            b,
        ) ==> a == b
    &&& forall|a: K::Real, b: K::Real| #[trigger]
        call_ensures(K::high_level, (&k,), a) && #[trigger] call_ensures(
            K::high_level,
            (&k,),
            b,
        ) ==> a == b
    &&& forall|a: K::Real, b: K::Real| #[trigger]
        call_ensures(K::low_level, (&k,), a) && #[trigger] call_ensures(
            K::low_level,
            (&k,),
            b,
        ) ==> a == b
    &&& forall|
        before: (K::Real, K::Real),
        after: (K::Real, K::Real),
        level: K::Real,
        a: K::Real,
        b: K::Real,
    | #[trigger]
        call_ensures(K::crossing, (&k, before, after, level), a) && #[trigger] call_ensures(
            K::crossing,
            (&k, before, after, level),
            b,
        ) ==> a == b
}

/// Every operation of an ensemble is a function of its arguments.
pub open spec fn shoots_alike<K: IgnitionCase>(k: K) -> bool {
    &&& is_reproducible(k)
    &&& numbers_reproducibly(k)
    &&& sees_alike(k)
    &&& prepares_alike(k)
    &&& forall|kinetics: K::Kinetics| #[trigger]
        call_ensures(K::kinetics, (&k,), kinetics) ==> is_repeatable(kinetics)
}

/// The paths of a member of an ensemble are alike.
pub open spec fn has_alike_paths<K: IgnitionCase>(k: K, p: IgnitionParams<K::Real>) -> bool {
    forall|i: u64, x: K::Path, y: K::Path| #[trigger]
        call_ensures(K::ignition_path, (&k, p, i), x) && #[trigger] call_ensures(
            K::ignition_path,
            (&k, p, i),
            y,
        ) ==> are_alike_paths(k, x, y)
}

proof fn lemma_walk_run_is_one<S>(
    samples: Seq<(usize, usize)>,
    init: S,
    step: spec_fn(S, (usize, usize), S) -> bool,
    a: Seq<S>,
    b: Seq<S>,
    i: int,
)
    requires
        is_walk_run(samples, init, step, a),
        is_walk_run(samples, init, step, b),
        forall|s: S, p: (usize, usize), x: S, y: S| #[trigger]
            step(s, p, x) && #[trigger] step(s, p, y) ==> x == y,
        0 <= i <= samples.len(),
    ensures
        a[i] == b[i],
    decreases i,
{
    if i > 0 {
        lemma_walk_run_is_one(samples, init, step, a, b, i - 1);
        let p = samples[i - 1];
        assert(step(a[i - 1], p, a[i - 1 + 1]) && step(b[i - 1], p, b[i - 1 + 1]));
    }
}

proof fn lemma_walk_is_one<S>(
    samples: Seq<(usize, usize)>,
    init: S,
    step: spec_fn(S, (usize, usize), S) -> bool,
    a: S,
    b: S,
)
    requires
        is_walk(samples, init, step, a),
        is_walk(samples, init, step, b),
        forall|s: S, p: (usize, usize), x: S, y: S| #[trigger]
            step(s, p, x) && #[trigger] step(s, p, y) ==> x == y,
    ensures
        a == b,
{
    let s = choose|run: Seq<S>| #[trigger] is_walk_run(samples, init, step, run) && run.last() == a;
    let t = choose|run: Seq<S>| #[trigger] is_walk_run(samples, init, step, run) && run.last() == b;
    lemma_walk_run_is_one(samples, init, step, s, t, samples.len() as int);
}

proof fn lemma_pupil_is_one<K: Pupil>(
    k: K,
    d: Disc<K::Real>,
    a: Seq<(usize, usize)>,
    b: Seq<(usize, usize)>,
)
    requires
        sees_alike(k),
        is_pupil_of(k, d, a),
        is_pupil_of(k, d, b),
    ensures
        a == b,
{
    assert(is_steady(k, d.grid.n as int, d.diameter)) by {
        reveal(sees_alike);
    }
    law_pupil_is_unique(k, d.grid.n as int, d.diameter, d.lo as int, d.hi as int, a, b);
}

proof fn lemma_coherent_sum_is_one<K: Pupil>(
    k: K,
    u: Seq<Seq<K::Complex>>,
    samples: Seq<(usize, usize)>,
    a: (K::Real, K::Real),
    b: (K::Real, K::Real),
)
    requires
        sees_alike(k),
        is_coherent_sum(k, u, samples, a),
        is_coherent_sum(k, u, samples, b),
    ensures
        a == b,
{
    reveal(sees_alike);
    let (c, x) = choose|dark: K::Complex, sum: K::Complex|
        {
            &&& #[trigger] call_ensures(K::dark, (&k,), dark)
            &&& #[trigger] is_walk(samples, dark, superposes(k, u), sum)
            &&& call_ensures(K::amplitude_integral, (&k, sum), a)
        };
    let (d, y) = choose|dark: K::Complex, sum: K::Complex|
        {
            &&& #[trigger] call_ensures(K::dark, (&k,), dark)
            &&& #[trigger] is_walk(samples, dark, superposes(k, u), sum)
            &&& call_ensures(K::amplitude_integral, (&k, sum), b)
        };
    lemma_walk_is_one(samples, c, superposes(k, u), x, y);
}

proof fn lemma_focal_power_is_one<K: Pupil>(
    k: K,
    u: Seq<Seq<K::Complex>>,
    samples: Seq<(usize, usize)>,
    a: K::Real,
    b: K::Real,
)
    requires
        is_reproducible(k),
        sees_alike(k),
        is_focal_power(k, u, samples, a),
        is_focal_power(k, u, samples, b),
    ensures
        a == b,
{
    assert forall|s: (K::Real, K::Real), t: (K::Real, K::Real)| #[trigger]
        is_coherent_sum(k, u, samples, s) && #[trigger] is_coherent_sum(
            k,
            u,
            samples,
            t,
        ) implies s == t by {
        lemma_coherent_sum_is_one(k, u, samples, s, t);
    }
    reveal(counts_reproducibly);
    reveal(launches_reproducibly);
}

proof fn lemma_incoherent_sum_is_one<K: Pupil>(
    k: K,
    u: Seq<Seq<K::Complex>>,
    samples: Seq<(usize, usize)>,
    a: K::Real,
    b: K::Real,
)
    requires
        is_reproducible(k),
        sees_alike(k),
        is_incoherent_sum(k, u, samples, a),
        is_incoherent_sum(k, u, samples, b),
    ensures
        a == b,
{
    reveal(sees_alike);
    reveal(counts_reproducibly);
    let (c, x) = choose|zero: K::Real, sum: K::Real|
        {
            &&& #[trigger] call_ensures(K::zero, (&k,), zero)
            &&& #[trigger] is_walk(samples, zero, adds_moduli(k, u), sum)
            &&& call_ensures(K::area_integral, (&k, sum), a)
        };
    let (d, y) = choose|zero: K::Real, sum: K::Real|
        {
            &&& #[trigger] call_ensures(K::zero, (&k,), zero)
            &&& #[trigger] is_walk(samples, zero, adds_moduli(k, u), sum)
            &&& call_ensures(K::area_integral, (&k, sum), b)
        };
    lemma_walk_is_one(samples, c, adds_moduli(k, u), x, y);
}

proof fn lemma_strehl_is_one<K: IgnitionCase>(
    k: K,
    disc: Disc<K::Real>,
    f: Field<K::Real, K::Complex>,
    g: Field<K::Real, K::Complex>,
    a: K::Real,
    b: K::Real,
)
    requires
        is_reproducible(k),
        sees_alike(k),
        f.u@ == g.u@,
        is_strehl_found(k, disc, f, Ok(a)),
        is_strehl_found(k, disc, g, Ok(b)),
    ensures
        a == b,
{
    assert forall|s: Seq<(usize, usize)>, t: Seq<(usize, usize)>| #[trigger]
        is_pupil_of(k, disc, s) && #[trigger] is_pupil_of(k, disc, t) implies s == t by {
        lemma_pupil_is_one(k, disc, s, t);
    }
    let (s, t) = choose|samples: Seq<(usize, usize)>, again: Seq<(usize, usize)>|
        {
            &&& #[trigger] is_pupil_of(k, disc, samples)
            &&& #[trigger] is_pupil_of(k, disc, again)
            &&& is_strehl(k, f.u@, samples, again, Ok(a))
        };
    assert(is_strehl(k, f.u@, s, s, Ok(a)) && is_strehl(k, f.u@, s, s, Ok(b)));
    assert forall|p: K::Real, q: K::Real| #[trigger]
        is_incoherent_sum(k, f.u@, s, p) && #[trigger] is_incoherent_sum(
            k,
            f.u@,
            s,
            q,
        ) implies p == q by {
        lemma_incoherent_sum_is_one(k, f.u@, s, p, q);
    }
    assert forall|p: K::Real, q: K::Real| #[trigger]
        is_focal_power(k, f.u@, s, p) && #[trigger] is_focal_power(k, f.u@, s, q) implies p == q by {
        lemma_focal_power_is_one(k, f.u@, s, p, q);
    }
    reveal(launches_reproducibly);
}

proof fn lemma_flow_is_one<K: Pupil>(
    k: K,
    n: int,
    u: Seq<Seq<K::Complex>>,
    samples: Seq<(usize, usize)>,
    a: Flow<K::Real>,
    b: Flow<K::Real>,
)
    requires
        is_reproducible(k),
        sees_alike(k),
        is_flow(k, n, u, samples, a),
        is_flow(k, n, u, samples, b),
    ensures
        a == b,
{
    reveal(sees_alike);
    reveal(counts_reproducibly);
    let x = choose|none: Flow<K::Real>| #[trigger]
        is_no_flow(k, none) && is_walk(samples, none, adds_flow(k, n, u), a);
    let y = choose|none: Flow<K::Real>| #[trigger]
        is_no_flow(k, none) && is_walk(samples, none, adds_flow(k, n, u), b);
    assert(x == y);
    lemma_walk_is_one(samples, x, adds_flow(k, n, u), a, b);
}

proof fn lemma_wander_is_one<K: IgnitionCase>(
    k: K,
    p: IgnitionParams<K::Real>,
    disc: Disc<K::Real>,
    f: Field<K::Real, K::Complex>,
    g: Field<K::Real, K::Complex>,
    a: (K::Real, K::Real),
    b: (K::Real, K::Real),
)
    requires
        is_reproducible(k),
        sees_alike(k),
        f.u@ == g.u@,
        is_wander_found(k, p, disc, f, Ok(a)),
        is_wander_found(k, p, disc, g, Ok(b)),
    ensures
        a == b,
{
    let n = disc.grid.n as int;
    assert forall|s: Seq<(usize, usize)>, t: Seq<(usize, usize)>| #[trigger]
        is_pupil_of(k, disc, s) && #[trigger] is_pupil_of(k, disc, t) implies s == t by {
        lemma_pupil_is_one(k, disc, s, t);
    }
    assert forall|s: Seq<(usize, usize)>, x: Flow<K::Real>, y: Flow<K::Real>| #[trigger]
        is_flow(k, n, f.u@, s, x) && #[trigger] is_flow(k, n, f.u@, s, y) implies x == y by {
        lemma_flow_is_one(k, n, f.u@, s, x, y);
    }
    reveal(sees_alike);
    reveal(launches_reproducibly);
}

pub(crate) proof fn lemma_focus_is_one<K: IgnitionCase>(
    k: K,
    p: IgnitionParams<K::Real>,
    disc: Disc<K::Real>,
    per_unit: K::Real,
    f: Field<K::Real, K::Complex>,
    g: Field<K::Real, K::Complex>,
    a: K::Real,
    b: K::Real,
)
    requires
        is_reproducible(k),
        sees_alike(k),
        prepares_alike(k),
        f.u@ == g.u@,
        is_focus(k, p, disc, per_unit, f, a),
        is_focus(k, p, disc, per_unit, g, b),
    ensures
        a == b,
{
    assert forall|s: Seq<(usize, usize)>, t: Seq<(usize, usize)>| #[trigger]
        is_pupil_of(k, disc, s) && #[trigger] is_pupil_of(k, disc, t) implies s == t by {
        lemma_pupil_is_one(k, disc, s, t);
    }
    assert forall|s: Seq<(usize, usize)>, x: K::Real, y: K::Real| #[trigger]
        is_focal_power(k, f.u@, s, x) && #[trigger] is_focal_power(k, f.u@, s, y) implies x == y by {
        lemma_focal_power_is_one(k, f.u@, s, x, y);
    }
    reveal(launches_reproducibly);
    reveal(prepares_alike);
}

proof fn lemma_judgement_is_one<K: IgnitionCase>(
    k: K,
    p: IgnitionParams<K::Real>,
    bench: Bench<K>,
    x: Arrival<K::Real, K::Complex>,
    y: Arrival<K::Real, K::Complex>,
    a: Shot<K::Real>,
    b: Shot<K::Real>,
)
    requires
        shoots_alike(k),
        is_repeatable(bench.igniter.kinetics),
        x.field.u@ == y.field.u@,
        x.p_in == y.p_in,
        x.absorbed == y.absorbed,
        is_judged(k, p, bench, x, Ok(a)),
        is_judged(k, p, bench, y, Ok(b)),
    ensures
        a == b,
{
    let s = choose|i_focus: K::Real|
        {
            &&& #[trigger] is_focus(k, p, bench.disc, bench.per_unit, x.field, i_focus)
            &&& call_ensures(K::ratio, (&k, i_focus, bench.i_focus_vacuum), a.focal_ratio)
            &&& bench.igniter.is_breakdown(i_focus, p.fwhm, p.p0, p.ignition_steps, a.ignited)
        };
    let t = choose|i_focus: K::Real|
        {
            &&& #[trigger] is_focus(k, p, bench.disc, bench.per_unit, y.field, i_focus)
            &&& call_ensures(K::ratio, (&k, i_focus, bench.i_focus_vacuum), b.focal_ratio)
            &&& bench.igniter.is_breakdown(i_focus, p.fwhm, p.p0, p.ignition_steps, b.ignited)
        };
    lemma_focus_is_one(k, p, bench.disc, bench.per_unit, x.field, y.field, s, t);
    law_breakdown_is_reproducible(
        bench.igniter,
        s,
        p.fwhm,
        p.p0,
        p.ignition_steps,
        a.ignited,
        b.ignited,
    );
    lemma_strehl_is_one(k, bench.disc, x.field, y.field, a.strehl, b.strehl);
    lemma_wander_is_one(k, p, bench.disc, x.field, y.field, a.wander, b.wander);
    reveal(launches_reproducibly);
}

proof fn lemma_shot_is_one<K: IgnitionCase>(
    k: K,
    p: IgnitionParams<K::Real>,
    bench: Bench<K>,
    i: u64,
    a: Shot<K::Real>,
    b: Shot<K::Real>,
)
    requires
        shoots_alike(k),
        has_alike_paths(k, p),
        is_repeatable(bench.igniter.kinetics),
        is_shot(k, p, bench, i, Ok(a)),
        is_shot(k, p, bench, i, Ok(b)),
    ensures
        a == b,
{
    let (path, dz, slabs) = choose|path: K::Path, dz: K::Real, slabs: usize|
        {
            &&& #[trigger] call_ensures(K::ignition_path, (&k, p, i), path)
            &&& #[trigger] call_ensures(<K::Path as Path<K>>::dz, (&path, &k), dz)
            &&& #[trigger] call_ensures(<K::Path as Path<K>>::n_slabs, (&path, &k), slabs)
            &&& exists|x: Arrival<K::Real, K::Complex>| #[trigger]
                has_arrived(k, beam_of(p), path, dz, slabs, x) && is_judged(k, p, bench, x, Ok(a))
        };
    let (twin, dy, spans) = choose|path: K::Path, dz: K::Real, slabs: usize|
        {
            &&& #[trigger] call_ensures(K::ignition_path, (&k, p, i), path)
            &&& #[trigger] call_ensures(<K::Path as Path<K>>::dz, (&path, &k), dz)
            &&& #[trigger] call_ensures(<K::Path as Path<K>>::n_slabs, (&path, &k), slabs)
            &&& exists|x: Arrival<K::Real, K::Complex>| #[trigger]
                has_arrived(k, beam_of(p), path, dz, slabs, x) && is_judged(k, p, bench, x, Ok(b))
        };
    assert(are_alike_paths(k, path, twin));
    assert(dz == dy && slabs == spans);
    let x = choose|x: Arrival<K::Real, K::Complex>| #[trigger]
        has_arrived(k, beam_of(p), path, dz, slabs, x) && is_judged(k, p, bench, x, Ok(a));
    let y = choose|x: Arrival<K::Real, K::Complex>| #[trigger]
        has_arrived(k, beam_of(p), twin, dz, slabs, x) && is_judged(k, p, bench, x, Ok(b));
    law_arrival_is_reproducible(k, beam_of(p), path, twin, dz, slabs, x, y);
    lemma_judgement_is_one(k, p, bench, x, y, a, b);
}

proof fn lemma_vacuum_is_one<K: Optics>(k: K, m: Vacuum, l: Vacuum)
    requires
        counts_reproducibly(k),
        m.spec_n() == l.spec_n(),
    ensures
        answers_alike(k, m, l),
{
    reveal(counts_reproducibly);
    assert forall|z: usize, a: Plane<K::Real>, b: Plane<K::Real>|
        #![trigger call_ensures(<Vacuum as Medium<K>>::index_perturbation, (&m, &k, z), a), call_ensures(<Vacuum as Medium<K>>::index_perturbation, (&l, &k, z), b)]
        call_ensures(<Vacuum as Medium<K>>::index_perturbation, (&m, &k, z), a) && call_ensures(
            <Vacuum as Medium<K>>::index_perturbation,
            (&l, &k, z),
            b,
        ) implies a@ == b@ by {
        lemma_same_samples(a, b, m.spec_n() as int);
    }
    reveal(answers_alike);
}

proof fn lemma_scale_is_one<K: IgnitionCase>(
    k: K,
    p: IgnitionParams<K::Real>,
    a: K::Real,
    b: K::Real,
)
    requires
        is_reproducible(k),
        is_scale(k, p, Ok(a)),
        is_scale(k, p, Ok(b)),
    ensures
        a == b,
{
    let grid = Grid { n: p.n, dx: p.dx };
    let (f, x) = choose|launch: Field<K::Real, K::Complex>, power: K::Real|
        {
            &&& is_launch(k, grid, p.wavelength, p.w0, launch)
            &&& #[trigger] is_power(k, launch.u@, p.n as nat, power)
            &&& call_ensures(K::ratio, (&k, p.power, power), a)
        };
    let (g, y) = choose|launch: Field<K::Real, K::Complex>, power: K::Real|
        {
            &&& is_launch(k, grid, p.wavelength, p.w0, launch)
            &&& #[trigger] is_power(k, launch.u@, p.n as nat, power)
            &&& call_ensures(K::ratio, (&k, p.power, power), b)
        };
    lemma_launch_is_one(k, grid, p.wavelength, p.w0, f, g);
    lemma_power_is_one(k, f.u@, p.n as nat, x, y);
    reveal(launches_reproducibly);
}

proof fn lemma_reference_is_one<K: IgnitionCase>(
    k: K,
    p: IgnitionParams<K::Real>,
    disc: Disc<K::Real>,
    per_unit: K::Real,
    a: K::Real,
    b: K::Real,
)
    requires
        shoots_alike(k),
        has_reference(k, p, disc, per_unit, a),
        has_reference(k, p, disc, per_unit, b),
    ensures
        a == b,
{
    let (m, dz, x) = choose|medium: Vacuum, dz: K::Real, x: Arrival<K::Real, K::Complex>| #[trigger]
        is_reference_found(k, p, disc, per_unit, medium, dz, x, a);
    let (l, dy, y) = choose|medium: Vacuum, dz: K::Real, x: Arrival<K::Real, K::Complex>| #[trigger]
        is_reference_found(k, p, disc, per_unit, medium, dz, x, b);
    assert(dz == dy) by {
        reveal(prepares_alike);
    }
    lemma_vacuum_is_one(k, m, l);
    law_arrival_is_reproducible(k, beam_of(p), m, l, dz, p.screens, x, y);
    lemma_focus_is_one(k, p, disc, per_unit, x.field, y.field, a, b);
}

proof fn lemma_igniter_is_one<K: IgnitionCase>(
    k: K,
    p: IgnitionParams<K::Real>,
    a: AirBreakdown<K::Kinetics>,
    b: AirBreakdown<K::Kinetics>,
)
    requires
        shoots_alike(k),
        is_igniter(k, p, Ok(a)),
        is_igniter(k, p, Ok(b)),
    ensures
        a@ == b@,
        is_repeatable(a@.kinetics),
{
    reveal(prepares_alike);
    let (g, s) = choose|kinetics: K::Kinetics, s: Setup<K::Real>|
        {
            &&& #[trigger] call_ensures(K::kinetics, (&k,), kinetics)
            &&& #[trigger] call_ensures(K::setup, (&k, p.wavelength), s)
            &&& is_model(kinetics, s.wavelength, s.gas, s.focus, s.temperature, Ok(a))
        };
    let (h, t) = choose|kinetics: K::Kinetics, s: Setup<K::Real>|
        {
            &&& #[trigger] call_ensures(K::kinetics, (&k,), kinetics)
            &&& #[trigger] call_ensures(K::setup, (&k, p.wavelength), s)
            &&& is_model(kinetics, s.wavelength, s.gas, s.focus, s.temperature, Ok(b))
        };
    law_model_is_reproducible(g, s.wavelength, s.gas, s.focus, s.temperature, a, b);
}

proof fn lemma_preparation_is_one<K: IgnitionCase>(
    k: K,
    p: IgnitionParams<K::Real>,
    a: Prepared<K>,
    b: Prepared<K>,
)
    requires
        shoots_alike(k),
        is_prepared(k, p, 6, a),
        is_prepared(k, p, 6, b),
    ensures
        bench_of(a) == bench_of(b),
        a.i_threshold == b.i_threshold,
        is_repeatable(a.igniter@.kinetics),
{
    assert(a.pupil@ == b.pupil@) by {
        reveal(sees_alike);
    }
    lemma_scale_is_one(k, p, a.per_unit, b.per_unit);
    lemma_reference_is_one(k, p, a.pupil@, a.per_unit, a.i_focus_vacuum, b.i_focus_vacuum);
    lemma_igniter_is_one(k, p, a.igniter, b.igniter);
    law_threshold_is_reproducible(
        a.igniter@,
        p.fwhm,
        p.p0,
        p.ignition_steps,
        a.i_threshold,
        b.i_threshold,
    );
}

/// Where the arithmetic is a function of its arguments, the members of the smaller of
/// two ensembles are the first members of the larger, one by one, and the two have the
/// same intensity in vacuum and the same threshold. Neither the number of members nor
/// the order in which they are run matters to a member.
pub proof fn law_members_are_reproducible<K: IgnitionCase>(
    k: K,
    p: IgnitionParams<K::Real>,
    q: IgnitionParams<K::Real>,
    larger: IgnitionRun<K::Real>,
    smaller: IgnitionRun<K::Real>,
)
    requires
        is_sized_otherwise(p, q),
        0 < q.realizations <= p.realizations,
        has_own_paths(k),
        shoots_alike(k),
        has_alike_paths(k, q),
        is_ignition_run(k, p, Ok(larger)),
        is_ignition_run(k, q, Ok(smaller)),
    ensures
        smaller.shots@ == larger.shots@.subrange(0, q.realizations as int),
        smaller.i_focus_vacuum == larger.i_focus_vacuum,
        smaller.i_threshold == larger.i_threshold,
{
    assert(runs_alike(k, q)) by {
        assert forall|a: Prepared<K>, b: Prepared<K>| #[trigger]
            is_prepared(k, q, 6, a) && #[trigger] is_prepared(k, q, 6, b) implies bench_of(a)
            == bench_of(b) && a.i_threshold == b.i_threshold by {
            lemma_preparation_is_one(k, q, a, b);
        }
        assert forall|m: Prepared<K>, i: u64, a: Shot<K::Real>, b: Shot<K::Real>|
            #![trigger is_shot(k, q, bench_of(m), i, Ok(a)), is_shot(k, q, bench_of(m), i, Ok(b))]
            is_prepared(k, q, 6, m) && is_shot(k, q, bench_of(m), i, Ok(a)) && is_shot(
                k,
                q,
                bench_of(m),
                i,
                Ok(b),
            ) implies a == b by {
            lemma_preparation_is_one(k, q, m, m);
            lemma_shot_is_one(k, q, bench_of(m), i, a, b);
        }
    }
    lemma_members_are_alike(k, p, q, larger, smaller);
}

proof fn lemma_fraction_is_one<K: IgnitionCase>(
    k: K,
    shots: Seq<Shot<K::Real>>,
    a: K::Real,
    b: K::Real,
)
    requires
        shoots_alike(k),
        is_fraction_lit(k, shots, a),
        is_fraction_lit(k, shots, b),
    ensures
        a == b,
{
    reveal(launches_reproducibly);
}

proof fn lemma_wander_rms_is_one<K: IgnitionCase>(
    k: K,
    shots: Seq<Shot<K::Real>>,
    a: K::Real,
    b: K::Real,
)
    requires
        shoots_alike(k),
        is_wander_rms(k, shots, a),
        is_wander_rms(k, shots, b),
    ensures
        a == b,
{
    let (s, x) = choose|squares: Seq<K::Real>, mean: K::Real|
        {
            &&& are_squares(k, shots, squares)
            &&& #[trigger] is_mean(k, squares, mean)
            &&& call_ensures(K::root, (&k, mean), a)
        };
    let (t, y) = choose|squares: Seq<K::Real>, mean: K::Real|
        {
            &&& are_squares(k, shots, squares)
            &&& #[trigger] is_mean(k, squares, mean)
            &&& call_ensures(K::root, (&k, mean), b)
        };
    reveal(prepares_alike);
    assert(s =~= t);
    lemma_mean_is_one(k, s, x, y);
}

/// Two ensembles came out the same.
pub open spec fn is_same_run<R>(a: IgnitionRun<R>, b: IgnitionRun<R>) -> bool {
    &&& a.shots@ == b.shots@
    &&& a.p_ignite == b.p_ignite
    &&& a.i_focus_vacuum == b.i_focus_vacuum
    &&& a.i_threshold == b.i_threshold
    &&& a.wander_rms == b.wander_rms
    &&& a.guard_frac_mean == b.guard_frac_mean
}

/// Equal parameters, the seed among them, give equal ensembles: the same shots, and
/// the same summary of them.
pub proof fn law_ensemble_is_reproducible<K: IgnitionCase>(
    k: K,
    p: IgnitionParams<K::Real>,
    a: IgnitionRun<K::Real>,
    b: IgnitionRun<K::Real>,
)
    requires
        shoots_alike(k),
        has_alike_paths(k, p),
        is_ignition_run(k, p, Ok(a)),
        is_ignition_run(k, p, Ok(b)),
    ensures
        is_same_run(a, b),
{
    let (m, x) = choose|
        m: Prepared<K>,
        results: Seq<Result<Shot<K::Real>, IgnitionError<K::Real, <K::Path as Medium<K>>::Refusal>>>,
    | #[trigger]
        is_ensemble_run(k, p, m, results, Ok(a));
    let (l, y) = choose|
        m: Prepared<K>,
        results: Seq<Result<Shot<K::Real>, IgnitionError<K::Real, <K::Path as Medium<K>>::Refusal>>>,
    | #[trigger]
        is_ensemble_run(k, p, m, results, Ok(b));
    lemma_preparation_is_one(k, p, m, l);
    assert forall|i: int| 0 <= i < a.shots@.len() implies a.shots@[i] == b.shots@[i] by {
        assert(is_shot(k, p, bench_of(m), i as u64, x[i]));
        assert(is_shot(k, p, bench_of(m), i as u64, y[i]));
        assert(is_shot(k, p, bench_of(m), i as u64, Ok(a.shots@[i])));
        assert(is_shot(k, p, bench_of(m), i as u64, Ok(b.shots@[i])));
        lemma_shot_is_one(k, p, bench_of(m), i as u64, a.shots@[i], b.shots@[i]);
    }
    assert(a.shots@ =~= b.shots@);
    lemma_fraction_is_one(k, a.shots@, a.p_ignite, b.p_ignite);
    lemma_wander_rms_is_one(k, a.shots@, a.wander_rms, b.wander_rms);
    lemma_mean_is_one(k, guards_of(a.shots@), a.guard_frac_mean, b.guard_frac_mean);
}

/// A sweep counts as its numbers do: `exceeds` follows a total order.
pub open spec fn is_ordered_by<K: Optics>(k: K, leq: spec_fn(K::Real, K::Real) -> bool) -> bool {
    &&& total_ordering(leq)
    &&& forall|a: K::Real, b: K::Real| #[trigger] is_in_order(k, a, b) ==> leq(a, b)
}

pub(crate) proof fn lemma_ascent_is_sorted<K: Optics>(
    k: K,
    s: Seq<K::Real>,
    leq: spec_fn(K::Real, K::Real) -> bool,
    i: int,
    j: int,
)
    requires
        is_ordered_by(k, leq),
        is_ascending(k, s),
        0 <= i < j < s.len(),
    ensures
        leq(s[i], s[j]),
    decreases j - i,
{
    assert(is_in_order_at(k, s, j - 1));
    assert(is_in_order(k, s[j - 1], s[j - 1 + 1]));
    if i < j - 1 {
        lemma_ascent_is_sorted(k, s, leq, i, j - 1);
        assert(leq(s[i], s[j - 1]) && leq(s[j - 1], s[j]));
    }
}

/// Where numbers are ordered, the median of some values is a function of the values.
pub proof fn law_median_is_one<K: Optics>(
    k: K,
    values: Seq<K::Real>,
    a: K::Real,
    b: K::Real,
    leq: spec_fn(K::Real, K::Real) -> bool,
)
    requires
        is_ordered_by(k, leq),
        is_median(k, values, a),
        is_median(k, values, b),
    ensures
        a == b,
{
    let s = choose|sorted: Seq<K::Real>| #[trigger]
        is_sorting(k, values, sorted) && a == sorted[sorted.len() as int / 2];
    let t = choose|sorted: Seq<K::Real>| #[trigger]
        is_sorting(k, values, sorted) && b == sorted[sorted.len() as int / 2];
    assert(sorted_by(s, leq)) by {
        assert forall|i: int, j: int| 0 <= i < j < s.len() implies #[trigger] leq(s[i], s[j]) by {
            lemma_ascent_is_sorted(k, s, leq, i, j);
        }
    }
    assert(sorted_by(t, leq)) by {
        assert forall|i: int, j: int| 0 <= i < j < t.len() implies #[trigger] leq(t[i], t[j]) by {
            lemma_ascent_is_sorted(k, t, leq, i, j);
        }
    }
    lemma_sorted_unique(s, t, leq);
}

/// Two points of a sweep came out the same, their medians apart.
pub open spec fn is_same_point<R>(a: SweepPoint<R>, b: SweepPoint<R>) -> bool {
    &&& a.cn2 == b.cn2
    &&& a.r0 == b.r0
    &&& a.d_over_r0 == b.d_over_r0
    &&& a.p_ignite == b.p_ignite
    &&& a.p_ignite_se == b.p_ignite_se
    &&& a.mean_ratio == b.mean_ratio
    &&& a.wander_rms == b.wander_rms
    &&& a.focal_ratio@ == b.focal_ratio@
    &&& a.strehl@ == b.strehl@
    &&& a.i_focus_vacuum == b.i_focus_vacuum
    &&& a.i_threshold == b.i_threshold
}

proof fn lemma_point_is_one<K: IgnitionSweepCase>(
    k: K,
    p: IgnitionSweepParams<K::Real>,
    i: int,
    a: SweepPoint<K::Real>,
    b: SweepPoint<K::Real>,
)
    requires
        shoots_alike(k),
        sweeps_alike(k),
        forall|cn2: K::Real| has_alike_paths(k, #[trigger] at_strength(p, cn2)),
        is_point(k, p, i, a),
        is_point(k, p, i, b),
    ensures
        is_same_point(a, b),
        forall|leq: spec_fn(K::Real, K::Real) -> bool| #[trigger]
            is_ordered_by(k, leq) ==> a.median_ratio == b.median_ratio,
{
    reveal(sweeps_alike);
    let x = choose|run: IgnitionRun<K::Real>| #[trigger]
        is_ignition_run(k, at_strength(p, a.cn2), Ok(run)) && is_point_of(k, p, run, a);
    let y = choose|run: IgnitionRun<K::Real>| #[trigger]
        is_ignition_run(k, at_strength(p, b.cn2), Ok(run)) && is_point_of(k, p, run, b);
    assert(a.cn2 == b.cn2);
    law_ensemble_is_reproducible(k, at_strength(p, a.cn2), x, y);
    lemma_mean_is_one(k, ratios_of(x.shots@), a.mean_ratio, b.mean_ratio);
    assert(a.r0 == b.r0 && a.d_over_r0 == b.d_over_r0) by {
        reveal(launches_reproducibly);
    }
    assert forall|leq: spec_fn(K::Real, K::Real) -> bool| #[trigger]
        is_ordered_by(k, leq) implies a.median_ratio == b.median_ratio by {
        law_median_is_one(k, ratios_of(x.shots@), a.median_ratio, b.median_ratio, leq);
    }
}

proof fn lemma_level_is_passed_as_one<K: IgnitionSweepCase>(
    k: K,
    curve: Seq<(K::Real, K::Real)>,
    level: K::Real,
    a: Option<K::Real>,
    b: Option<K::Real>,
)
    requires
        sweeps_alike(k),
        is_level_passed(k, curve, level, a),
        is_level_passed(k, curve, level, b),
    ensures
        a == b,
{
    reveal(sweeps_alike);
    if let Some(x) = a {
        let i = choose|i: int| #[trigger]
            is_first_fall(k, curve, level, i) && call_ensures(
                K::crossing,
                (&k, curve[i], curve[i + 1], level),
                x,
            );
        if let Some(y) = b {
            let j = choose|i: int| #[trigger]
                is_first_fall(k, curve, level, i) && call_ensures(
                    K::crossing,
                    (&k, curve[i], curve[i + 1], level),
                    y,
                );
            if i < j {
                assert(is_no_fall_at(k, curve, level, i));
            }
            if j < i {
                assert(is_no_fall_at(k, curve, level, j));
            }
        } else {
            assert(is_no_fall_at(k, curve, level, i));
        }
    } else if let Some(y) = b {
        let j = choose|i: int| #[trigger]
            is_first_fall(k, curve, level, i) && call_ensures(
                K::crossing,
                (&k, curve[i], curve[i + 1], level),
                y,
            );
        assert(is_no_fall_at(k, curve, level, j));
    }
}

proof fn lemma_transition_is_one<K: IgnitionSweepCase>(
    k: K,
    curve: Seq<(K::Real, K::Real)>,
    a: Option<K::Real>,
    b: Option<K::Real>,
)
    requires
        sweeps_alike(k),
        is_transition(k, curve, a),
        is_transition(k, curve, b),
    ensures
        a == b,
{
    assert forall|level: K::Real, x: Option<K::Real>, y: Option<K::Real>| #[trigger]
        is_level_passed(k, curve, level, x) && #[trigger] is_level_passed(
            k,
            curve,
            level,
            y,
        ) implies x == y by {
        lemma_level_is_passed_as_one(k, curve, level, x, y);
    }
    reveal(sweeps_alike);
}

/// A sweep sets its own strengths: of two sweeps that differ only in the strength of
/// the ensemble that they are given, every point is the same, and so is the width of
/// the transition. The medians are the same wherever numbers are ordered.
pub proof fn law_base_strength_is_ignored<K: IgnitionSweepCase>(
    k: K,
    p: IgnitionSweepParams<K::Real>,
    cn2: K::Real,
    a: IgnitionSweepRun<K::Real>,
    b: IgnitionSweepRun<K::Real>,
)
    requires
        shoots_alike(k),
        sweeps_alike(k),
        forall|x: K::Real| has_alike_paths(k, #[trigger] at_strength(p, x)),
        is_ignition_sweep(k, p, Ok(a)),
        is_ignition_sweep(
            k,
            (IgnitionSweepParams { base: (IgnitionParams { cn2, ..p.base }), ..p }),
            Ok(b),
        ),
    ensures
        a.points@.len() == b.points@.len() == p.points,
        forall|i: int|
            0 <= i < p.points ==> is_same_point(#[trigger] a.points@[i], b.points@[i]),
        a.transition_decades == b.transition_decades,
        forall|i: int, leq: spec_fn(K::Real, K::Real) -> bool|
            0 <= i < p.points && #[trigger] is_ordered_by(k, leq) ==> (
            #[trigger] a.points@[i]).median_ratio == b.points@[i].median_ratio,
{
    lemma_base_strength_is_not_read(k, p, cn2, b);
    assert forall|i: int| 0 <= i < p.points implies is_same_point(
        #[trigger] a.points@[i],
        b.points@[i],
    ) && forall|leq: spec_fn(K::Real, K::Real) -> bool| #[trigger]
        is_ordered_by(k, leq) ==> a.points@[i].median_ratio == b.points@[i].median_ratio by {
        assert(is_point(k, p, i, b.points@[i]));
        lemma_point_is_one(k, p, i, a.points@[i], b.points@[i]);
    }
    assert(curve_of(a.points@) =~= curve_of(b.points@));
    lemma_transition_is_one(k, curve_of(a.points@), a.transition_decades, b.transition_decades);
}

/// What a sweep may return does not depend on the strength of the ensemble that it is
/// given.
proof fn lemma_base_strength_is_not_read<K: IgnitionSweepCase>(
    k: K,
    p: IgnitionSweepParams<K::Real>,
    cn2: K::Real,
    run: IgnitionSweepRun<K::Real>,
)
    requires
        is_ignition_sweep(
            k,
            (IgnitionSweepParams { base: (IgnitionParams { cn2, ..p.base }), ..p }),
            Ok(run),
        ),
    ensures
        is_ignition_sweep(k, p, Ok(run)),
{
    let q = IgnitionSweepParams { base: IgnitionParams { cn2, ..p.base }, ..p };
    assert forall|i: int| 0 <= i < run.points@.len() implies is_point(
        k,
        p,
        i,
        #[trigger] run.points@[i],
    ) by {
        let point = run.points@[i];
        assert(is_point(k, q, i, point));
        let x = choose|x: IgnitionRun<K::Real>| #[trigger]
            is_ignition_run(k, at_strength(q, point.cn2), Ok(x)) && is_point_of(k, q, x, point);
        assert(at_strength(q, point.cn2) == at_strength(p, point.cn2));
        assert(is_point_of(k, p, x, point));
    }
}

} // verus!

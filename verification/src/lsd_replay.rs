//! The wave of a lit gas is a function of the gas and of the beam that sustains it.
//!
//! Where every operation of the arithmetic is a function of its arguments, two runs
//! that differ only in the pulse that lights the gas, and that are both lit, have the
//! same wave, frame by frame.
use crate::breakdown0d::{is_model, AirBreakdown};
use crate::breakdown_case::Setup;
use crate::breakdown_replay::{
    is_repeatable, law_model_is_reproducible, law_threshold_is_reproducible,
};
use crate::column_replay::{
    flows_alike, is_repeatable_column, is_same_absorption, is_same_table,
    law_arrival_is_reproducible, lemma_absorption_is_one, lemma_alpha_profile_is_one,
    lemma_max_is_one, lemma_profile_is_one, lemma_sum_is_one, shines_alike,
};
use crate::euler1d::{
    energies, is_added, is_integral, is_running_sum, Conserved, Domain1d, Euler1d, EulerError,
    Primitive,
};
use crate::lsd::{
    are_states, is_absorption, is_absorption_front, is_advance_to, is_alpha_profile, is_coefficient,
    is_depth, is_first_reaching, is_fraction, is_fraction_known, is_front_found, is_front_in,
    is_front_position, is_looked_at, is_max, is_peak, is_profile, is_regime_check, is_seeded,
    is_seeded_state, is_sum, is_verdict, lemma_regime_check_keeps_the_gas, none_strong, Absorption,
    Beam1d, Column1d, LsdColumn, LsdError, SeededIgnition,
};
use crate::lsd_case::{
    are_deviations, are_frames, are_settled, closure, is_arrival, is_closure_at,
    is_closure_reported, is_covariance, is_deviation, is_fit, is_frame, is_frame_leg, is_frame_of,
    is_frame_taken, is_front_speed, is_lit_otherwise, is_lsd_run, is_mean, is_peak_leg, is_peak_run,
    is_peak_state, is_run_of, is_spark_at, is_speed_reported, is_wave, is_wave_column, is_wave_of,
    is_wave_run, is_wave_start, lemma_wave_forgets_the_pulse, Looks, LsdCase, LsdFrame, LsdParams,
    LsdRun, Spark, Wave, WaveStart,
};
use crate::plasmaprops::PlasmaTable;
use crate::riemann::is_reproducible;
use vstd::prelude::*;

verus! {

/// The formulas of a run are functions of their arguments.
#[verifier::opaque]
pub open spec fn runs_waves_alike<K: LsdCase>(k: K) -> bool {
    &&& forall|x: K::Real, a: bool, b: bool| #[trigger]
        call_ensures(K::is_finite, (&k, x), a) && #[trigger] call_ensures(
            K::is_finite,
            (&k, x),
            b,
        ) ==> a == b
    &&& forall|x: K::Real, y: K::Real, a: K::Real, b: K::Real| #[trigger]
        call_ensures(K::minus, (&k, x, y), a) && #[trigger] call_ensures(
            K::minus,
            (&k, x, y),
            b,
        ) ==> a == b
    &&& forall|x: K::Real, y: K::Real, a: K::Real, b: K::Real| #[trigger]
        call_ensures(K::times, (&k, x, y), a) && #[trigger] call_ensures(
            K::times,
            (&k, x, y),
            b,
        ) ==> a == b
    &&& forall|x: K::Real, y: K::Real, a: K::Real, b: K::Real| #[trigger]
        call_ensures(K::ratio, (&k, x, y), a) && #[trigger] call_ensures(
            K::ratio,
            (&k, x, y),
            b,
        ) ==> a == b
    &&& forall|x: K::Real, a: K::Real, b: K::Real| #[trigger]
        call_ensures(K::negate, (&k, x), a) && #[trigger] call_ensures(
            K::negate,
            (&k, x),
            b,
        ) ==> a == b
    &&& forall|n: usize, a: K::Real, b: K::Real| #[trigger]
        call_ensures(K::members, (&k, n), a) && #[trigger] call_ensures(
            K::members,
            (&k, n),
            b,
        ) ==> a == b
    &&& forall|a: K::Kinetics, b: K::Kinetics| #[trigger]
        call_ensures(K::kinetics, (&k,), a) && #[trigger] call_ensures(
            K::kinetics,
            (&k,),
            b,
        ) ==> a == b
    &&& forall|wavelength: K::Real, a: Setup<K::Real>, b: Setup<K::Real>| #[trigger]
        call_ensures(K::setup, (&k, wavelength), a) && #[trigger] call_ensures(
            K::setup,
            (&k, wavelength),
            b,
        ) ==> a == b
    &&& forall|p0: K::Real, t0: K::Real, a: K::Real, b: K::Real| #[trigger]
        call_ensures(K::ambient_density, (&k, p0, t0), a) && #[trigger] call_ensures(
            K::ambient_density,
            (&k, p0, t0),
            b,
        ) ==> a == b
    &&& forall|drive: K::Real, rho_0: K::Real, a: K::Real, b: K::Real| #[trigger]
        call_ensures(K::wave_speed, (&k, drive, rho_0), a) && #[trigger] call_ensures(
            K::wave_speed,
            (&k, drive, rho_0),
            b,
        ) ==> a == b
    &&& forall|length: K::Real, cells: usize, a: K::Hydro, b: K::Hydro| #[trigger]
        call_ensures(K::hydro, (&k, length, cells), a) && #[trigger] call_ensures(
            K::hydro,
            (&k, length, cells),
            b,
        ) ==> a == b
    &&& forall|rho_0: K::Real, p0: K::Real, a: Primitive<K::Real>, b: Primitive<K::Real>| #[trigger]
        call_ensures(K::ambient, (&k, rho_0, p0), a) && #[trigger] call_ensures(
            K::ambient,
            (&k, rho_0, p0),
            b,
        ) ==> a == b
    &&& forall|rho_0: K::Real, p0: K::Real, a: K::Real, b: K::Real| #[trigger]
        call_ensures(K::ignition_energy, (&k, rho_0, p0), a) && #[trigger] call_ensures(
            K::ignition_energy,
            (&k, rho_0, p0),
            b,
        ) ==> a == b
    &&& forall|
        length: K::Real,
        rho_0: K::Real,
        speed: K::Real,
        a: SeededIgnition< K::Real, >,
        b: SeededIgnition< K::Real, >,
    | #[trigger]
        call_ensures(K::hot_spot, (&k, length, rho_0, speed), a) && #[trigger] call_ensures(
            K::hot_spot,
            (&k, length, rho_0, speed),
            b,
        ) ==> a == b
    &&& forall|
        fraction: K::Real,
        length: K::Real,
        speed: K::Real,
        a: K::Real,
        b: K::Real,
    | #[trigger]
        call_ensures(K::duration, (&k, fraction, length, speed), a) && #[trigger] call_ensures(
            K::duration,
            (&k, fraction, length, speed),
            b,
        ) ==> a == b
    &&& forall|frame: usize, t_end: K::Real, frames: usize, a: K::Real, b: K::Real| #[trigger]
        call_ensures(K::frame_time, (&k, frame, t_end, frames), a) && #[trigger] call_ensures(
            K::frame_time,
            (&k, frame, t_end, frames),
            b,
        ) ==> a == b
    &&& forall|i: usize, length: K::Real, cells: usize, a: K::Real, b: K::Real| #[trigger]
        call_ensures(K::cell_centre, (&k, i, length, cells), a) && #[trigger] call_ensures(
            K::cell_centre,
            (&k, i, length, cells),
            b,
        ) ==> a == b
    &&& forall|depth: K::Real, a: K::Real, b: K::Real| #[trigger]
        call_ensures(K::log_transmission, (&k, depth), a) && #[trigger] call_ensures(
            K::log_transmission,
            (&k, depth),
            b,
        ) ==> a == b
    &&& forall|a: K::Real, b: K::Real| #[trigger]
        call_ensures(K::co2_wavelength, (&k,), a) && #[trigger] call_ensures(
            K::co2_wavelength,
            (&k,),
            b,
        ) ==> a == b
    &&& forall|a: K::Real, b: K::Real| #[trigger]
        call_ensures(K::gaunt, (&k,), a) && #[trigger] call_ensures(K::gaunt, (&k,), b) ==> a == b
    &&& forall|a: Option<PlasmaTable<K::Real>>, b: Option<PlasmaTable<K::Real>>| #[trigger]
        call_ensures(K::table, (&k,), a) && #[trigger] call_ensures(K::table, (&k,), b) ==> match (
            a,
            b,
        ) {
            (Some(x), Some(y)) => is_same_table(x@, y@),
            (None, None) => true,
            _ => false,
        }
}

/// Every operation of a run is a function of its arguments.
pub open spec fn is_repeatable_run<K: LsdCase>(k: K) -> bool {
    &&& runs_waves_alike(k)
    &&& forall|length: K::Real, cells: usize, hydro: K::Hydro| #[trigger]
        call_ensures(K::hydro, (&k, length, cells), hydro) ==> is_repeatable_column(hydro)
    &&& forall|kinetics: K::Kinetics| #[trigger]
        call_ensures(K::kinetics, (&k,), kinetics) ==> is_repeatable(kinetics)
}

proof fn lemma_states_are_one<K: Beam1d>(
    c: Column1d<K>,
    a: Seq<Primitive<K::Real>>,
    b: Seq<Primitive<K::Real>>,
)
    requires
        flows_alike(c.hydro.scheme),
        are_states(c, a),
        are_states(c, b),
    ensures
        a == b,
{
    reveal(flows_alike);
    assert(a =~= b);
}

proof fn lemma_peak_is_one<K: Beam1d>(k: K, p: Seq<K::Real>, x: K::Real, y: K::Real)
    requires
        is_repeatable_column(k),
        is_peak(k, p, x),
        is_peak(k, p, y),
    ensures
        x == y,
{
    reveal(shines_alike);
    let low = choose|lowest: K::Real| #[trigger]
        call_ensures(K::lowest, (&k,), lowest) && is_max(k, lowest, p, x);
    lemma_max_is_one(k, low, p, x, y);
}

proof fn lemma_reach_is_one<K: Beam1d>(k: K, p: Seq<K::Real>, level: K::Real, i: int, j: int)
    requires
        shines_alike(k),
        is_first_reaching(k, p, level, i),
        is_first_reaching(k, p, level, j),
    ensures
        i <= j,
{
    if j < i {
        assert(p.subrange(0, i)[j] == p[j]);
        reveal(shines_alike);
    }
}

pub(crate) proof fn lemma_front_is_one<K: Beam1d>(
    k: K,
    ambient: Primitive<K::Real>,
    states: Seq<Primitive<K::Real>>,
    r: Option<K::Real>,
    s: Option<K::Real>,
)
    requires
        is_repeatable_column(k),
        is_front_in(k, ambient, states, r),
        is_front_in(k, ambient, states, s),
    ensures
        r == s,
{
    let (p, x, l) = choose|p: Seq<K::Real>, p_max: K::Real, level: K::Real| #[trigger]
        is_front_found(k, ambient, states, p, p_max, level, r);
    let (q, y, m) = choose|p: Seq<K::Real>, p_max: K::Real, level: K::Real| #[trigger]
        is_front_found(k, ambient, states, p, p_max, level, s);
    assert(p =~= q);
    lemma_peak_is_one(k, p, x, y);
    assert forall|level: K::Real, i: int, j: int| #[trigger]
        is_first_reaching(k, p, level, i) && #[trigger] is_first_reaching(
            k,
            p,
            level,
            j,
        ) implies i == j by {
        lemma_reach_is_one(k, p, level, i, j);
        lemma_reach_is_one(k, p, level, j, i);
    }
    reveal(shines_alike);
    reveal(flows_alike);
}

proof fn lemma_front_position_is_one<K: Beam1d>(
    c: Column1d<K>,
    r: Option<K::Real>,
    s: Option<K::Real>,
)
    requires
        is_repeatable_column(c.hydro.scheme),
        is_front_position(c, r),
        is_front_position(c, s),
    ensures
        r == s,
{
    let a = choose|states: Seq<Primitive<K::Real>>| #[trigger]
        are_states(c, states) && is_front_in(c.hydro.scheme, c.ambient, states, r);
    let b = choose|states: Seq<Primitive<K::Real>>| #[trigger]
        are_states(c, states) && is_front_in(c.hydro.scheme, c.ambient, states, s);
    lemma_states_are_one(c, a, b);
    lemma_front_is_one(c.hydro.scheme, c.ambient, a, r, s);
}

proof fn lemma_depth_is_one<K: Beam1d>(
    pre: Column1d<K>,
    p: Column1d<K>,
    q: Column1d<K>,
    x: K::Real,
    y: K::Real,
)
    requires
        is_repeatable_column(pre.hydro.scheme),
        is_depth(pre, p, Ok(x)),
        is_depth(pre, q, Ok(y)),
    ensures
        p == q,
        x == y,
{
    let k = pre.hydro.scheme;
    let (a, s) = choose|alpha: Seq<K::Real>, sum: K::Real| #[trigger]
        is_sum(k, alpha, sum) && is_alpha_profile(pre, p, Ok(alpha)) && call_ensures(
            K::integral,
            (&k, sum),
            x,
        );
    let (b, t) = choose|alpha: Seq<K::Real>, sum: K::Real| #[trigger]
        is_sum(k, alpha, sum) && is_alpha_profile(pre, q, Ok(alpha)) && call_ensures(
            K::integral,
            (&k, sum),
            y,
        );
    lemma_alpha_profile_is_one(pre, p, q, a, b);
    lemma_sum_is_one(k, a, s, t);
    reveal(flows_alike);
}

proof fn lemma_look_is_one<K: Beam1d>(
    pre: Column1d<K>,
    m: Column1d<K>,
    a: Seq<K::Real>,
    x: K::Real,
    l: Column1d<K>,
    b: Seq<K::Real>,
    y: K::Real,
)
    requires
        is_repeatable_column(pre.hydro.scheme),
        is_looked_at(pre, m, a, x),
        is_looked_at(pre, l, b, y),
    ensures
        m == l,
        a == b,
        x == y,
        m.hydro == pre.hydro,
{
    let k = pre.hydro.scheme;
    lemma_alpha_profile_is_one(pre, m, l, a, b);
    let z = choose|zero: K::Real| #[trigger]
        call_ensures(K::zero, (&k,), zero) && is_max(k, zero, a, x);
    assert(is_max(k, z, a, y)) by {
        reveal(is_reproducible);
    }
    lemma_max_is_one(k, z, a, x, y);
}

proof fn lemma_fraction_leaves_one<K: Beam1d>(
    pre: Column1d<K>,
    p: Column1d<K>,
    q: Column1d<K>,
    x: K::Real,
    y: K::Real,
)
    requires
        is_repeatable_column(pre.hydro.scheme),
        is_fraction(pre, p, Ok(x)),
        is_fraction(pre, q, Ok(y)),
    ensures
        p == q,
{
    let k = pre.hydro.scheme;
    let (m, a, s) = choose|mid: Column1d<K>, alpha: Seq<K::Real>, top: K::Real| #[trigger]
        is_looked_at(pre, mid, alpha, top) && is_fraction_known(mid, alpha, top, p, Ok(x));
    let (l, b, t) = choose|mid: Column1d<K>, alpha: Seq<K::Real>, top: K::Real| #[trigger]
        is_looked_at(pre, mid, alpha, top) && is_fraction_known(mid, alpha, top, q, Ok(y));
    lemma_look_is_one(pre, m, a, s, l, b, t);
    assert forall|u: Seq<K::Real>, v: Seq<K::Real>|
        #![trigger is_profile(m, p, u), is_profile(m, q, v)]
        is_profile(m, p, u) && is_profile(m, q, v) implies p == q by {
        lemma_profile_is_one(m, p, q, u, v);
    }
    assert forall|i: int| #[trigger]
        is_absorption_front(k, a, s, i) implies !none_strong(k, a, s) by {
        reveal(shines_alike);
        if none_strong(k, a, s) {
            assert(call_ensures(K::is_strong_absorber, (&k, a[i], s), false));
        }
    }
    reveal(shines_alike);
}

/// What a look at the regime leaves of a column that passes it is a function of the
/// column.
proof fn lemma_regime_leaves_one<K: Beam1d>(pre: Column1d<K>, p: Column1d<K>, q: Column1d<K>)
    requires
        is_repeatable_column(pre.hydro.scheme),
        is_regime_check(pre, p, Ok(())),
        is_regime_check(pre, q, Ok(())),
    ensures
        p == q,
{
    let (m, a, s) = choose|mid: Column1d<K>, alpha: Seq<K::Real>, top: K::Real| #[trigger]
        is_looked_at(pre, mid, alpha, top) && is_verdict(mid, top, p, Ok(()));
    let (l, b, t) = choose|mid: Column1d<K>, alpha: Seq<K::Real>, top: K::Real| #[trigger]
        is_looked_at(pre, mid, alpha, top) && is_verdict(mid, top, q, Ok(()));
    lemma_look_is_one(pre, m, a, s, l, b, t);
    let x = choose|f: K::Real| #[trigger] is_fraction(m, p, Ok(f));
    let y = choose|f: K::Real| #[trigger] is_fraction(m, q, Ok(f));
    lemma_fraction_leaves_one(m, p, q, x, y);
}

/// Two frames show the same.
pub open spec fn is_same_frame<R>(f: LsdFrame<R>, g: LsdFrame<R>) -> bool {
    &&& f.time == g.time
    &&& f.front_x == g.front_x
    &&& f.optical_depth == g.optical_depth
    &&& f.log10_transmission == g.log10_transmission
    &&& f.pressure@ == g.pressure@
    &&& f.density@ == g.density@
    &&& f.velocity@ == g.velocity@
    &&& f.absorption@ == g.absorption@
    &&& f.intensity@ == g.intensity@
}

proof fn lemma_arrival_is_one<K: LsdCase>(
    k: K,
    p: LsdParams<K::Real>,
    t_end: K::Real,
    i: int,
    pre: Column1d<K::Hydro>,
    x: Looks<K::Hydro>,
    y: Looks<K::Hydro>,
)
    requires
        runs_waves_alike(k),
        is_repeatable_column(pre.hydro.scheme),
        is_arrival(k, p, t_end, i, pre, x.arrived, x.judged),
        is_arrival(k, p, t_end, i, pre, y.arrived, y.judged),
    ensures
        x.judged == y.judged,
        x.judged.hydro.scheme == pre.hydro.scheme,
{
    let s = choose|t: K::Real| #[trigger]
        call_ensures(K::frame_time, (&k, i as usize, t_end, p.frames), t) && is_advance_to(
            pre,
            t,
            x.arrived,
            Ok(()),
        );
    let t = choose|t: K::Real| #[trigger]
        call_ensures(K::frame_time, (&k, i as usize, t_end, p.frames), t) && is_advance_to(
            pre,
            t,
            y.arrived,
            Ok(()),
        );
    assert(s == t) by {
        reveal(runs_waves_alike);
    }
    law_arrival_is_reproducible(pre, s, x.arrived, y.arrived);
    if i == 1 {
        lemma_regime_leaves_one(x.arrived, x.judged, y.judged);
        lemma_regime_check_keeps_the_gas(x.arrived, x.judged);
    }
}

proof fn lemma_frame_is_one<K: LsdCase>(
    k: K,
    p: LsdParams<K::Real>,
    t_end: K::Real,
    i: int,
    pre: Column1d<K::Hydro>,
    a: Column1d<K::Hydro>,
    b: Column1d<K::Hydro>,
    f: LsdFrame<K::Real>,
    g: LsdFrame<K::Real>,
)
    requires
        runs_waves_alike(k),
        is_repeatable_column(pre.hydro.scheme),
        is_frame(k, p, t_end, i, pre, a, Ok(f)),
        is_frame(k, p, t_end, i, pre, b, Ok(g)),
    ensures
        a == b,
        a.hydro.scheme == pre.hydro.scheme,
        is_same_frame(f, g),
{
    let x = choose|looks: Looks<K::Hydro>| #[trigger]
        is_frame_taken(k, p, t_end, i, pre, looks, a, f);
    let y = choose|looks: Looks<K::Hydro>| #[trigger]
        is_frame_taken(k, p, t_end, i, pre, looks, b, g);
    lemma_arrival_is_one(k, p, t_end, i, pre, x, y);
    let (v, s) = choose|states: Seq<Primitive<K::Real>>, faces: Seq<K::Real>| #[trigger]
        is_frame_of(k, x, a, states, faces, f);
    let (w, t) = choose|states: Seq<Primitive<K::Real>>, faces: Seq<K::Real>| #[trigger]
        is_frame_of(k, y, b, states, faces, g);
    lemma_states_are_one(x.judged, v, w);
    assert(f.pressure@ =~= g.pressure@ && f.density@ =~= g.density@ && f.velocity@
        =~= g.velocity@) by {
        assert forall|l: int| 0 <= l < v.len() implies f.pressure@[l] == g.pressure@[l]
            && f.density@[l] == g.density@[l] && f.velocity@[l] == g.velocity@[l] by {
            assert(v[l] == w[l]);
        }
    }
    lemma_alpha_profile_is_one(
        x.judged,
        x.absorbing,
        y.absorbing,
        f.absorption@,
        g.absorption@,
    );
    assert(x.absorbing.hydro == x.judged.hydro);
    lemma_profile_is_one(x.absorbing, x.lit, y.lit, s, t);
    assert(x.lit.hydro == x.absorbing.hydro);
    lemma_depth_is_one(x.lit, a, b, f.optical_depth, g.optical_depth);
    assert(a.hydro == x.lit.hydro);
    lemma_front_position_is_one(a, f.front_x, g.front_x);
    reveal(runs_waves_alike);
}

proof fn lemma_frames_are_one<K: LsdCase>(
    k: K,
    p: LsdParams<K::Real>,
    t_end: K::Real,
    a: Seq<Column1d<K::Hydro>>,
    f: Seq<LsdFrame<K::Real>>,
    b: Seq<Column1d<K::Hydro>>,
    g: Seq<LsdFrame<K::Real>>,
    i: int,
)
    requires
        runs_waves_alike(k),
        is_repeatable_column(a[0].hydro.scheme),
        a[0] == b[0],
        are_frames(k, p, t_end, a, f),
        are_frames(k, p, t_end, b, g),
        f.len() == g.len(),
        0 <= i <= f.len(),
    ensures
        a[i] == b[i],
        a[i].hydro.scheme == a[0].hydro.scheme,
        i > 0 ==> is_same_frame(f[i - 1], g[i - 1]),
    decreases i,
{
    if i > 0 {
        lemma_frames_are_one(k, p, t_end, a, f, b, g, i - 1);
        assert(is_frame_leg(k, p, t_end, a, f, i - 1) && is_frame_leg(k, p, t_end, b, g, i - 1));
        lemma_frame_is_one(k, p, t_end, i - 1, a[i - 1], a[i], b[i], f[i - 1], g[i - 1]);
    }
}

proof fn lemma_settled_are_one<K: LsdCase>(
    k: K,
    f: Seq<LsdFrame<K::Real>>,
    g: Seq<LsdFrame<K::Real>>,
    from: int,
    upto: int,
    a: Seq<(K::Real, K::Real)>,
    b: Seq<(K::Real, K::Real)>,
)
    requires
        runs_waves_alike(k),
        0 <= from,
        upto <= f.len(),
        forall|l: int|
            from <= l < upto ==> (#[trigger] f[l]).time == g[l].time && f[l].front_x == g[l].front_x,
        are_settled(k, f, from, upto, a),
        are_settled(k, g, from, upto, b),
    ensures
        a == b,
    decreases upto - from,
{
    if upto <= from {
        assert(a =~= b);
    } else {
        reveal(runs_waves_alike);
        let last = f[upto - 1];
        assert(last.front_x == g[upto - 1].front_x && last.time == g[upto - 1].time);
        match last.front_x {
            None => {
                lemma_settled_are_one(k, f, g, from, upto - 1, a, b);
            },
            Some(x) => {
                if call_ensures(K::is_finite, (&k, x), true) {
                    lemma_settled_are_one(k, f, g, from, upto - 1, a.drop_last(), b.drop_last());
                    assert(a =~= a.drop_last().push(a.last()));
                    assert(b =~= b.drop_last().push(b.last()));
                } else {
                    lemma_settled_are_one(k, f, g, from, upto - 1, a, b);
                }
            },
        }
    }
}

proof fn lemma_mean_is_one<K: LsdCase>(
    k: K,
    hydro: K::Hydro,
    values: Seq<K::Real>,
    x: K::Real,
    y: K::Real,
)
    requires
        runs_waves_alike(k),
        is_repeatable_column(hydro),
        is_mean(k, hydro, values, x),
        is_mean(k, hydro, values, y),
    ensures
        x == y,
{
    assert forall|s: K::Real, t: K::Real| #[trigger]
        is_sum(hydro, values, s) && #[trigger] is_sum(hydro, values, t) implies s == t by {
        lemma_sum_is_one(hydro, values, s, t);
    }
    reveal(runs_waves_alike);
}

proof fn lemma_covariance_is_one<K: LsdCase>(
    k: K,
    hydro: K::Hydro,
    a: Seq<K::Real>,
    mean_a: K::Real,
    b: Seq<K::Real>,
    mean_b: K::Real,
    x: K::Real,
    y: K::Real,
)
    requires
        runs_waves_alike(k),
        is_repeatable_column(hydro),
        is_covariance(k, hydro, a, mean_a, b, mean_b, x),
        is_covariance(k, hydro, a, mean_a, b, mean_b, y),
    ensures
        x == y,
{
    let s = choose|products: Seq<K::Real>| #[trigger]
        are_deviations(k, a, mean_a, b, mean_b, products) && is_sum(hydro, products, x);
    let t = choose|products: Seq<K::Real>| #[trigger]
        are_deviations(k, a, mean_a, b, mean_b, products) && is_sum(hydro, products, y);
    assert forall|i: int| 0 <= i < s.len() implies s[i] == t[i] by {
        assert(is_deviation(k, a[i], mean_a, b[i], mean_b, s[i]));
        assert(is_deviation(k, a[i], mean_a, b[i], mean_b, t[i]));
        reveal(runs_waves_alike);
    }
    assert(s =~= t);
    lemma_sum_is_one(hydro, s, x, y);
}

proof fn lemma_fit_is_one<K: LsdCase>(
    k: K,
    hydro: K::Hydro,
    times: Seq<K::Real>,
    places: Seq<K::Real>,
    x: K::Real,
    y: K::Real,
)
    requires
        runs_waves_alike(k),
        is_repeatable_column(hydro),
        is_fit(k, hydro, times, places, x),
        is_fit(k, hydro, times, places, y),
    ensures
        x == y,
{
    assert forall|v: Seq<K::Real>, s: K::Real, t: K::Real| #[trigger]
        is_mean(k, hydro, v, s) && #[trigger] is_mean(k, hydro, v, t) implies s == t by {
        lemma_mean_is_one(k, hydro, v, s, t);
    }
    assert forall|
        a: Seq<K::Real>,
        mean_a: K::Real,
        b: Seq<K::Real>,
        mean_b: K::Real,
        s: K::Real,
        t: K::Real,
    | #[trigger]
        is_covariance(k, hydro, a, mean_a, b, mean_b, s) && #[trigger] is_covariance(
            k,
            hydro,
            a,
            mean_a,
            b,
            mean_b,
            t,
        ) implies s == t by {
        lemma_covariance_is_one(k, hydro, a, mean_a, b, mean_b, s, t);
    }
    reveal(runs_waves_alike);
}

proof fn lemma_speed_is_one<K: LsdCase>(
    k: K,
    hydro: K::Hydro,
    f: Seq<LsdFrame<K::Real>>,
    g: Seq<LsdFrame<K::Real>>,
    r: Option<K::Real>,
    s: Option<K::Real>,
)
    requires
        runs_waves_alike(k),
        is_repeatable_column(hydro),
        f.len() == g.len(),
        forall|l: int| 0 <= l < f.len() ==> is_same_frame(#[trigger] f[l], g[l]),
        is_speed_reported(k, hydro, f, r),
        is_speed_reported(k, hydro, g, s),
    ensures
        r == s,
{
    let (from, upto) = (f.len() as int / 2, f.len() as int);
    let a = choose|points: Seq<(K::Real, K::Real)>| #[trigger]
        are_settled(k, f, from, upto, points) && is_front_speed(k, hydro, points, r);
    let b = choose|points: Seq<(K::Real, K::Real)>| #[trigger]
        are_settled(k, g, from, upto, points) && is_front_speed(k, hydro, points, s);
    lemma_settled_are_one(k, f, g, from, upto, a, b);
    if let (Some(x), Some(y)) = (r, s) {
        lemma_fit_is_one(
            k,
            hydro,
            a.map_values(|q: (K::Real, K::Real)| q.0),
            a.map_values(|q: (K::Real, K::Real)| q.1),
            x,
            y,
        );
    }
}

proof fn lemma_peak_run_is_one<H: Beam1d>(
    hydro: H,
    start: Primitive<H::Real>,
    states: Seq<Primitive<H::Real>>,
    a: Seq<Primitive<H::Real>>,
    b: Seq<Primitive<H::Real>>,
    i: int,
)
    requires
        shines_alike(hydro),
        is_peak_run(hydro, start, states, a),
        is_peak_run(hydro, start, states, b),
        0 <= i < a.len(),
        i < b.len(),
    ensures
        a[i] == b[i],
    decreases i,
{
    if i > 0 {
        lemma_peak_run_is_one(hydro, start, states, a, b, i - 1);
        assert(is_peak_leg(hydro, states, a, i - 1) && is_peak_leg(hydro, states, b, i - 1));
        reveal(shines_alike);
    }
}

proof fn lemma_closure_is_one<K: LsdCase>(
    k: K,
    hydro: K::Hydro,
    wavelength: K::Real,
    w: Primitive<K::Real>,
    r: Option<K::Real>,
    s: Option<K::Real>,
)
    requires
        runs_waves_alike(k),
        is_repeatable_column(hydro),
        is_closure_at(k, hydro, wavelength, w, r),
        is_closure_at(k, hydro, wavelength, w, s),
    ensures
        r == s,
{
    reveal(runs_waves_alike);
    assert forall|
        a: Absorption<K::Real>,
        b: Absorption<K::Real>,
        u: Result<(K::Real, Option<K::Real>), LsdError<K::Real>>,
        v: Result<(K::Real, Option<K::Real>), LsdError<K::Real>>,
    |
        #![trigger is_absorption(hydro, a, w, u), is_absorption(hydro, b, w, v)]
        is_same_absorption(a, b) && is_absorption(hydro, a, w, u) && is_absorption(
            hydro,
            b,
            w,
            v,
        ) implies u == v by {
        lemma_absorption_is_one(hydro, a, b, w, u, v);
    }
    let (x, g) = choose|found: Option<PlasmaTable<K::Real>>, gaunt: K::Real|
        {
            &&& #[trigger] call_ensures(K::table, (&k,), found)
            &&& #[trigger] call_ensures(K::gaunt, (&k,), gaunt)
            &&& match found {
                None => r is None,
                Some(table) => match r {
                    Some(a) => is_coefficient(hydro, closure::<K>(wavelength, gaunt, table), w, a),
                    None => exists|e: LsdError<K::Real>|
                     #[trigger]
                        is_absorption(hydro, closure::<K>(wavelength, gaunt, table), w, Err(e)),
                },
            }
        };
    let (y, h) = choose|found: Option<PlasmaTable<K::Real>>, gaunt: K::Real|
        {
            &&& #[trigger] call_ensures(K::table, (&k,), found)
            &&& #[trigger] call_ensures(K::gaunt, (&k,), gaunt)
            &&& match found {
                None => s is None,
                Some(table) => match s {
                    Some(a) => is_coefficient(hydro, closure::<K>(wavelength, gaunt, table), w, a),
                    None => exists|e: LsdError<K::Real>|
                     #[trigger]
                        is_absorption(hydro, closure::<K>(wavelength, gaunt, table), w, Err(e)),
                },
            }
        };
    assert(g == h);
    if let (Some(t), Some(u)) = (x, y) {
        assert(is_same_absorption(
            closure::<K>(wavelength, g, t),
            closure::<K>(wavelength, g, u),
        ));
    }
}

pub(crate) proof fn lemma_closure_is_reported_as_one<K: LsdCase>(
    k: K,
    c: Column1d<K::Hydro>,
    start: Primitive<K::Real>,
    wavelength: K::Real,
    r: Option<K::Real>,
    s: Option<K::Real>,
)
    requires
        runs_waves_alike(k),
        is_repeatable_column(c.hydro.scheme),
        is_closure_reported(k, c, start, wavelength, r),
        is_closure_reported(k, c, start, wavelength, s),
    ensures
        r == s,
{
    let hydro = c.hydro.scheme;
    let (v, x) = choose|states: Seq<Primitive<K::Real>>, peak: Primitive<K::Real>|
        {
            &&& are_states(c, states)
            &&& #[trigger] is_peak_state(hydro, start, states, peak)
            &&& is_closure_at(k, hydro, wavelength, peak, r)
        };
    let (w, y) = choose|states: Seq<Primitive<K::Real>>, peak: Primitive<K::Real>|
        {
            &&& are_states(c, states)
            &&& #[trigger] is_peak_state(hydro, start, states, peak)
            &&& is_closure_at(k, hydro, wavelength, peak, s)
        };
    lemma_states_are_one(c, v, w);
    let a = choose|run: Seq<Primitive<K::Real>>| #[trigger]
        is_peak_run(hydro, start, v, run) && run.len() == v.len() + 1 && run.last() == x;
    let b = choose|run: Seq<Primitive<K::Real>>| #[trigger]
        is_peak_run(hydro, start, v, run) && run.len() == v.len() + 1 && run.last() == y;
    lemma_peak_run_is_one(hydro, start, v, a, b, v.len() as int);
    lemma_closure_is_one(k, hydro, wavelength, x, r, s);
}

proof fn lemma_running_sum_is_one<H: Beam1d>(
    hydro: H,
    cells: Seq<Conserved<H::Real>>,
    a: Seq<H::Real>,
    b: Seq<H::Real>,
    i: int,
)
    requires
        is_reproducible(hydro),
        is_running_sum(hydro, energies(), cells, a),
        is_running_sum(hydro, energies(), cells, b),
        0 <= i <= cells.len(),
    ensures
        a[i] == b[i],
    decreases i,
{
    if i > 0 {
        lemma_running_sum_is_one(hydro, cells, a, b, i - 1);
        let c = cells[i - 1];
        assert(is_added(hydro, energies(), c, a[i - 1], a[i - 1 + 1]));
        assert(is_added(hydro, energies(), c, b[i - 1], b[i - 1 + 1]));
    }
    reveal(is_reproducible);
}

proof fn lemma_energy_is_one<H: Beam1d>(d: Domain1d<H>, x: H::Real, y: H::Real)
    requires
        is_repeatable_column(d.scheme),
        is_integral(d, energies(), x),
        is_integral(d, energies(), y),
    ensures
        x == y,
{
    assert forall|a: Seq<H::Real>, b: Seq<H::Real>| #[trigger]
        is_running_sum(d.scheme, energies(), d.cells, a) && #[trigger] is_running_sum(
            d.scheme,
            energies(),
            d.cells,
            b,
        ) implies a.last() == b.last() by {
        lemma_running_sum_is_one(d.scheme, d.cells, a, b, d.cells.len() as int);
    }
    reveal(flows_alike);
}

/// Two waves came out the same.
pub open spec fn is_same_wave<R>(a: Wave<R>, b: Wave<R>) -> bool {
    &&& a.d_measured == b.d_measured
    &&& a.x@ == b.x@
    &&& a.frames@.len() == b.frames@.len()
    &&& forall|i: int|
        0 <= i < a.frames@.len() ==> is_same_frame(#[trigger] a.frames@[i], b.frames@[i])
    &&& a.deposited_energy == b.deposited_energy
    &&& a.energy_residual == b.energy_residual
    &&& a.boundaries_undisturbed == b.boundaries_undisturbed
    &&& a.ib_alpha == b.ib_alpha
    &&& a.ib_optical_depth == b.ib_optical_depth
    &&& a.ib_alpha_co2 == b.ib_alpha_co2
    &&& a.ib_optical_depth_co2 == b.ib_optical_depth_co2
}

proof fn lemma_report_is_one<K: LsdCase>(
    k: K,
    p: LsdParams<K::Real>,
    ambient: Primitive<K::Real>,
    c: Column1d<K::Hydro>,
    a: Wave<K::Real>,
    b: Wave<K::Real>,
)
    requires
        runs_waves_alike(k),
        is_repeatable_column(c.hydro.scheme),
        a.frames@.len() == b.frames@.len(),
        forall|i: int|
            0 <= i < a.frames@.len() ==> is_same_frame(#[trigger] a.frames@[i], b.frames@[i]),
        is_wave_of(k, p, ambient, c, a),
        is_wave_of(k, p, ambient, c, b),
    ensures
        is_same_wave(a, b),
{
    let hydro = c.hydro.scheme;
    lemma_speed_is_one(k, hydro, a.frames@, b.frames@, a.d_measured, b.d_measured);
    assert(a.x@ =~= b.x@) by {
        reveal(runs_waves_alike);
    }
    assert(a.energy_residual == b.energy_residual) by {
        assert forall|x: K::Real, y: K::Real| #[trigger]
            is_integral(c.hydro, energies(), x) && #[trigger] is_integral(
                c.hydro,
                energies(),
                y,
            ) implies x == y by {
            lemma_energy_is_one(c.hydro, x, y);
        }
        reveal(shines_alike);
    }
    assert(a.boundaries_undisturbed == b.boundaries_undisturbed) by {
        assert forall|v: Seq<Primitive<K::Real>>, w: Seq<Primitive<K::Real>>| #[trigger]
            are_states(c, v) && #[trigger] are_states(c, w) implies v == w by {
            lemma_states_are_one(c, v, w);
        }
        reveal(shines_alike);
    }
    lemma_closure_is_reported_as_one(k, c, ambient, p.wavelength, a.ib_alpha, b.ib_alpha);
    let x = choose|co2: K::Real| #[trigger]
        call_ensures(K::co2_wavelength, (&k,), co2) && is_closure_reported(
            k,
            c,
            ambient,
            co2,
            a.ib_alpha_co2,
        );
    let y = choose|co2: K::Real| #[trigger]
        call_ensures(K::co2_wavelength, (&k,), co2) && is_closure_reported(
            k,
            c,
            ambient,
            co2,
            b.ib_alpha_co2,
        );
    assert(x == y) by {
        reveal(runs_waves_alike);
    }
    lemma_closure_is_reported_as_one(k, c, ambient, x, a.ib_alpha_co2, b.ib_alpha_co2);
    reveal(runs_waves_alike);
}

proof fn lemma_column_is_one<K: LsdCase>(
    p: LsdParams<K::Real>,
    s: WaveStart<K>,
    a: LsdColumn<K::Hydro>,
    b: LsdColumn<K::Hydro>,
)
    requires
        is_repeatable_column(s.hydro),
        is_wave_column(p, s, Ok(a)),
        is_wave_column(p, s, Ok(b)),
    ensures
        a@ == b@,
        a@.hydro.scheme == s.hydro,
{
    let absorption = Absorption::GreyThreshold { alpha: p.alpha, e_ignite: s.e_ignite };
    let (v, x) = choose|
        states: Seq<Primitive<K::Real>>,
        built: Result<Euler1d<K::Hydro>, EulerError>,
    | #[trigger]
        is_seeded(s.hydro, p.cells, s.ambient, s.seed, absorption, p.drive, states, built, Ok(a));
    let (w, y) = choose|
        states: Seq<Primitive<K::Real>>,
        built: Result<Euler1d<K::Hydro>, EulerError>,
    | #[trigger]
        is_seeded(s.hydro, p.cells, s.ambient, s.seed, absorption, p.drive, states, built, Ok(b));
    assert(v =~= w) by {
        reveal(flows_alike);
        reveal(shines_alike);
        assert forall|i: int| 0 <= i < v.len() implies v[i] == w[i] by {
            assert(is_seeded_state(s.hydro, s.seed, s.ambient, i, v[i]));
            assert(is_seeded_state(s.hydro, s.seed, s.ambient, i, w[i]));
        }
    }
    assert(a@.hydro.cells =~= b@.hydro.cells) by {
        reveal(flows_alike);
        assert forall|i: int| 0 <= i < v.len() implies a@.hydro.cells[i] == b@.hydro.cells[i] by {
            assert(v[i] == w[i]);
        }
    }
    assert(a@.hydro == b@.hydro && a@.deposited == b@.deposited) by {
        reveal(is_reproducible);
        reveal(flows_alike);
    }
    lemma_energy_is_one(a@.hydro, a@.initial_energy, b@.initial_energy);
}

proof fn lemma_wave_run_is_one<K: LsdCase>(
    k: K,
    p: LsdParams<K::Real>,
    s: WaveStart<K>,
    c: LsdColumn<K::Hydro>,
    x: Column1d<K::Hydro>,
    a: Wave<K::Real>,
    d: LsdColumn<K::Hydro>,
    y: Column1d<K::Hydro>,
    b: Wave<K::Real>,
)
    requires
        runs_waves_alike(k),
        is_repeatable_column(s.hydro),
        is_wave_run(k, p, s, c, x, Ok(a)),
        is_wave_run(k, p, s, d, y, Ok(b)),
    ensures
        is_same_wave(a, b),
{
    lemma_column_is_one(p, s, c, d);
    let (f, g) = (a.frames@, b.frames@);
    let u = choose|columns: Seq<Column1d<K::Hydro>>| #[trigger]
        are_frames(k, p, s.t_end, columns, f) && columns[0] == c@ && columns.last() == x;
    let v = choose|columns: Seq<Column1d<K::Hydro>>| #[trigger]
        are_frames(k, p, s.t_end, columns, g) && columns[0] == d@ && columns.last() == y;
    assert forall|i: int| 0 <= i < f.len() implies is_same_frame(#[trigger] f[i], g[i]) by {
        lemma_frames_are_one(k, p, s.t_end, u, f, v, g, i + 1);
    }
    lemma_frames_are_one(k, p, s.t_end, u, f, v, g, f.len() as int);
    lemma_report_is_one(k, p, s.ambient, x, a, b);
}

/// The wave of a lit gas is a function of the gas and of the beam that sustains it.
pub proof fn law_wave_is_reproducible<K: LsdCase>(
    k: K,
    p: LsdParams<K::Real>,
    rho_0: K::Real,
    speed: K::Real,
    a: Wave<K::Real>,
    b: Wave<K::Real>,
)
    requires
        is_repeatable_run(k),
        is_wave(k, p, rho_0, speed, Ok(a)),
        is_wave(k, p, rho_0, speed, Ok(b)),
    ensures
        is_same_wave(a, b),
{
    let s = choose|s: WaveStart<K>| #[trigger]
        is_wave_start(k, p, rho_0, speed, s) && exists|
            column: LsdColumn<K::Hydro>,
            post: Column1d<K::Hydro>,
        | #[trigger]
            is_wave_run(k, p, s, column, post, Ok(a));
    let t = choose|s: WaveStart<K>| #[trigger]
        is_wave_start(k, p, rho_0, speed, s) && exists|
            column: LsdColumn<K::Hydro>,
            post: Column1d<K::Hydro>,
        | #[trigger]
            is_wave_run(k, p, s, column, post, Ok(b));
    assert(s == t) by {
        reveal(runs_waves_alike);
    }
    let (c, x) = choose|column: LsdColumn<K::Hydro>, post: Column1d<K::Hydro>| #[trigger]
        is_wave_run(k, p, s, column, post, Ok(a));
    let (d, y) = choose|column: LsdColumn<K::Hydro>, post: Column1d<K::Hydro>| #[trigger]
        is_wave_run(k, p, s, column, post, Ok(b));
    lemma_wave_run_is_one(k, p, s, c, x, a, d, y, b);
}

proof fn lemma_threshold_is_one<K: LsdCase>(
    k: K,
    p: LsdParams<K::Real>,
    x: K::Real,
    y: K::Real,
    a: Spark<K::Real>,
    b: Spark<K::Real>,
)
    requires
        is_repeatable_run(k),
        is_spark_at(k, p, x, Ok(a)),
        is_spark_at(k, p, y, Ok(b)),
    ensures
        a.i_threshold == b.i_threshold,
{
    reveal(runs_waves_alike);
    let (g, s) = choose|kinetics: K::Kinetics, s: Setup<K::Real>|
        {
            &&& #[trigger] call_ensures(K::kinetics, (&k,), kinetics)
            &&& #[trigger] call_ensures(K::setup, (&k, p.wavelength), s)
            &&& exists|m: AirBreakdown<K::Kinetics>| #[trigger]
                is_model(kinetics, s.wavelength, s.gas, s.focus, s.temperature, Ok(m))
                    && m@.is_threshold(p.fwhm, p.p0, p.ignition_steps, Ok(a.i_threshold))
        };
    let m = choose|m: AirBreakdown<K::Kinetics>| #[trigger]
        is_model(g, s.wavelength, s.gas, s.focus, s.temperature, Ok(m)) && m@.is_threshold(
            p.fwhm,
            p.p0,
            p.ignition_steps,
            Ok(a.i_threshold),
        );
    let (h, t) = choose|kinetics: K::Kinetics, s: Setup<K::Real>|
        {
            &&& #[trigger] call_ensures(K::kinetics, (&k,), kinetics)
            &&& #[trigger] call_ensures(K::setup, (&k, p.wavelength), s)
            &&& exists|m: AirBreakdown<K::Kinetics>| #[trigger]
                is_model(kinetics, s.wavelength, s.gas, s.focus, s.temperature, Ok(m))
                    && m@.is_threshold(p.fwhm, p.p0, p.ignition_steps, Ok(b.i_threshold))
        };
    let l = choose|m: AirBreakdown<K::Kinetics>| #[trigger]
        is_model(h, t.wavelength, t.gas, t.focus, t.temperature, Ok(m)) && m@.is_threshold(
            p.fwhm,
            p.p0,
            p.ignition_steps,
            Ok(b.i_threshold),
        );
    law_model_is_reproducible(g, s.wavelength, s.gas, s.focus, s.temperature, m, l);
    law_threshold_is_reproducible(
        m@,
        p.fwhm,
        p.p0,
        p.ignition_steps,
        a.i_threshold,
        b.i_threshold,
    );
}

/// The ignition pulse only lights the gas. Of two runs that differ only in the power
/// and the focus of the pulse and that are both lit, the gas, its threshold and its
/// wave are the same: nothing but the peak intensity of the pulse differs.
pub proof fn law_pulse_only_lights_the_gas<K: LsdCase>(
    k: K,
    p: LsdParams<K::Real>,
    q: LsdParams<K::Real>,
    a: LsdRun<K::Real>,
    b: LsdRun<K::Real>,
)
    requires
        is_repeatable_run(k),
        is_lit_otherwise(p, q),
        is_lsd_run(k, p, Ok(a)),
        is_lsd_run(k, q, Ok(b)),
        a.spark.ignited,
        b.spark.ignited,
    ensures
        (a.drive, a.rho_0, a.d_raizer) == (b.drive, b.rho_0, b.d_raizer),
        a.spark.i_threshold == b.spark.i_threshold,
        a.wave is Some && b.wave is Some,
        is_same_wave(a.wave->0, b.wave->0),
{
    let (s, rho_0, speed) = choose|spark: Spark<K::Real>, rho_0: K::Real, speed: K::Real| #[trigger]
        is_run_of(k, p, spark, rho_0, speed, Ok(a));
    let (t, rho_b, speed_b) = choose|
        spark: Spark<K::Real>,
        rho_0: K::Real,
        speed: K::Real,
    | #[trigger]
        is_run_of(k, q, spark, rho_0, speed, Ok(b));
    assert(rho_0 == rho_b && speed == speed_b) by {
        reveal(runs_waves_alike);
    }
    assert(is_spark_at(k, p, s.i_peak, Ok(s)));
    assert(is_spark_at(k, q, t.i_peak, Ok(t)));
    assert(is_spark_at(k, p, t.i_peak, Ok(t)));
    lemma_threshold_is_one(k, p, s.i_peak, t.i_peak, s, t);
    lemma_wave_forgets_the_pulse(k, q, p, rho_0, speed, Ok(b.wave->0));
    law_wave_is_reproducible(k, p, rho_0, speed, a.wave->0, b.wave->0);
}

} // verus!

//! What the frames of a detonation show.
//!
//! A frame shows the gas that the column holds, the light that the beam has left at each
//! cell, and the front where the pressure rises. The first frame is the gas as it was
//! lit: ambient everywhere but in the seed.
use crate::algebra::lemma_distributes;
use crate::column_replay::{flows_alike, is_repeatable_column, lemma_absorption_is_one};
use crate::euler1d::{tally, Conserved, Euler1d, EulerError, Primitive, Scheme1d};
use crate::lsd::{
    alphas, are_states, is_additive, is_advance_to, is_alpha_profile, is_alpha_run,
    is_first_reaching, is_front_at, is_front_found, is_front_in, is_march, is_march_over,
    is_march_to, is_marched_at, is_max, is_max_run, is_seeded, is_seeded_state, is_sum,
    lemma_regime_check_keeps_the_gas, lemma_sum_measures, with_record, Absorption, Beam1d, Column1d,
    LsdColumn, Record, SeededIgnition,
};
use crate::lsd_case::{
    are_frames, is_arrival, is_frame, is_frame_leg, is_frame_of, is_frame_taken, is_wave,
    is_wave_run, is_wave_start, Looks, LsdCase, LsdFrame, LsdParams, Wave, WaveStart,
};
use crate::riemann::Acoustics;
use crate::sums::{lemma_tally_is_the_line_sum, line_sum};
use vstd::prelude::*;

verus! {

/// Looking at the absorption of a column leaves its gas, its beam and its model.
proof fn lemma_look_keeps_the_gas<K: Beam1d>(
    pre: Column1d<K>,
    post: Column1d<K>,
    alpha: Seq<K::Real>,
)
    requires
        is_alpha_profile(pre, post, Ok(alpha)),
    ensures
        (post.hydro, post.absorption, post.incident, post.ambient) == (
            pre.hydro,
            pre.absorption,
            pre.incident,
            pre.ambient,
        ),
{
}

/// A frame with the columns that it was taken of, and their common gas.
proof fn lemma_frame_of<K: LsdCase>(
    k: K,
    p: LsdParams<K::Real>,
    t_end: K::Real,
    i: int,
    pre: Column1d<K::Hydro>,
    post: Column1d<K::Hydro>,
    f: LsdFrame<K::Real>,
) -> (r: (Looks<K::Hydro>, Seq<Primitive<K::Real>>, Seq<K::Real>))
    requires
        is_frame(k, p, t_end, i, pre, post, Ok(f)),
    ensures
        is_arrival(k, p, t_end, i, pre, r.0.arrived, r.0.judged),
        is_frame_of(k, r.0, post, r.1, r.2, f),
        r.0.arrived.hydro == post.hydro,
        (r.0.judged.hydro, r.0.judged.absorption, r.0.judged.incident, r.0.judged.ambient) == (
            post.hydro,
            post.absorption,
            post.incident,
            post.ambient,
        ),
        (r.0.absorbing.hydro, r.0.absorbing.absorption, r.0.absorbing.incident) == (
            post.hydro,
            post.absorption,
            post.incident,
        ),
        (r.0.lit.hydro, r.0.lit.absorption) == (post.hydro, post.absorption),
{
    let looks = choose|looks: Looks<K::Hydro>| #[trigger]
        is_frame_taken(k, p, t_end, i, pre, looks, post, f);
    let (states, faces) = choose|states: Seq<Primitive<K::Real>>, faces: Seq<K::Real>| #[trigger]
        is_frame_of(k, looks, post, states, faces, f);
    if i == 1 {
        lemma_regime_check_keeps_the_gas(looks.arrived, looks.judged);
    }
    lemma_look_keeps_the_gas(looks.judged, looks.absorbing, f.absorption@);
    let alpha = choose|alpha: Seq<K::Real>| #[trigger]
        is_march(looks.absorbing.hydro.scheme, looks.absorbing.incident, alpha, faces)
            && is_alpha_profile(looks.absorbing, looks.lit, Ok(alpha));
    lemma_look_keeps_the_gas(looks.absorbing, looks.lit, alpha);
    let (beta, sum) = choose|alpha: Seq<K::Real>, sum: K::Real| #[trigger]
        is_sum(looks.lit.hydro.scheme, alpha, sum) && is_alpha_profile(looks.lit, post, Ok(alpha))
            && call_ensures(
            <K::Hydro as Scheme1d>::integral,
            (&looks.lit.hydro.scheme, sum),
            f.optical_depth,
        );
    lemma_look_keeps_the_gas(looks.lit, post, beta);
    (looks, states, faces)
}

/// A frame shows the gas that the column holds: the pressure, the velocity and the
/// density of a cell are those of its conserved state, and where nothing is lost on the
/// way from one to the other and back, they make up that state again.
pub proof fn law_frame_shows_the_gas<K: LsdCase>(
    k: K,
    p: LsdParams<K::Real>,
    t_end: K::Real,
    i: int,
    pre: Column1d<K::Hydro>,
    post: Column1d<K::Hydro>,
    f: LsdFrame<K::Real>,
    c: int,
)
    requires
        is_frame(k, p, t_end, i, pre, post, Ok(f)),
        0 <= c < post.hydro.cells.len(),
    ensures
        f.pressure@.len() == f.density@.len() == f.velocity@.len() == post.hydro.cells.len(),
        call_ensures(
            <K::Hydro as Scheme1d>::to_primitive,
            (&post.hydro.scheme, post.hydro.cells[c]),
            (Primitive { rho: f.density@[c], u: f.velocity@[c], p: f.pressure@[c] }),
        ),
        (forall|u: Conserved<K::Real>, w: Primitive<K::Real>, v:
            Conserved<K::Real>|
            #![trigger call_ensures(<K::Hydro as Scheme1d>::to_primitive, (&post.hydro.scheme, u), w), call_ensures(<K::Hydro as Scheme1d>::to_conserved, (&post.hydro.scheme, w), v)]
            call_ensures(<K::Hydro as Scheme1d>::to_primitive, (&post.hydro.scheme, u), w)
                && call_ensures(<K::Hydro as Scheme1d>::to_conserved, (&post.hydro.scheme, w), v)
                ==> v == u) ==> forall|v: Conserved<K::Real>| #[trigger]
            call_ensures(
                <K::Hydro as Scheme1d>::to_conserved,
                (
                    &post.hydro.scheme,
                    (Primitive { rho: f.density@[c], u: f.velocity@[c], p: f.pressure@[c] }),
                ),
                v,
            ) ==> v == post.hydro.cells[c],
{
    let (looks, states, faces) = lemma_frame_of(k, p, t_end, i, pre, post, f);
    assert(states[c] == (Primitive { rho: f.density@[c], u: f.velocity@[c], p: f.pressure@[c] }));
    assert(call_ensures(
        <K::Hydro as Scheme1d>::to_primitive,
        (&post.hydro.scheme, post.hydro.cells[c]),
        states[c],
    ));
}

/// What a gas absorbs depends on the gas and on the model alone.
proof fn lemma_alpha_is_of_the_gas<K: Beam1d>(
    a: Column1d<K>,
    b: Column1d<K>,
    p: Column1d<K>,
    q: Column1d<K>,
    x: Seq<K::Real>,
    y: Seq<K::Real>,
)
    requires
        is_repeatable_column(a.hydro.scheme),
        a.hydro == b.hydro,
        a.absorption == b.absorption,
        is_alpha_profile(a, p, Ok(x)),
        is_alpha_profile(b, q, Ok(y)),
    ensures
        x == y,
{
    let k = a.hydro.scheme;
    let (v, s, r) = choose|
        states: Seq<Primitive<K::Real>>,
        samples: Seq<(K::Real, Option<K::Real>)>,
        records: Seq<Record<K::Real>>,
    |
        {
            &&& #[trigger] is_alpha_run(a, states, samples, records)
            &&& p == with_record(a, records.last())
            &&& samples.len() == states.len() && x == alphas(samples)
        };
    let (w, t, u) = choose|
        states: Seq<Primitive<K::Real>>,
        samples: Seq<(K::Real, Option<K::Real>)>,
        records: Seq<Record<K::Real>>,
    |
        {
            &&& #[trigger] is_alpha_run(b, states, samples, records)
            &&& q == with_record(b, records.last())
            &&& samples.len() == states.len() && y == alphas(samples)
        };
    assert forall|i: int| 0 <= i < x.len() implies x[i] == y[i] by {
        assert(v[i] == w[i]) by {
            reveal(flows_alike);
        }
        assert(s[i] == s[i] && t[i] == t[i]);
        lemma_absorption_is_one(k, a.absorption, b.absorption, v[i], Ok(s[i]), Ok(t[i]));
    }
    assert(x =~= y);
}

/// Light and depth of a frame are exact: a cell takes `step` times its coefficient from
/// the logarithm of an intensity, and an integral is `step` per unit of a sum.
#[verifier::opaque]
pub open spec fn dims_by_the_depth<K: Beam1d>(
    k: K,
    worth: spec_fn(K::Real) -> real,
    log: spec_fn(K::Real) -> real,
    step: real,
) -> bool {
    &&& is_additive(k, worth)
    &&& forall|s: K::Real, d: K::Real| #[trigger]
        call_ensures(<K as Scheme1d>::integral, (&k, s), d) ==> worth(d) == step * worth(s)
    &&& forall|a: K::Real, alpha: K::Real, b: K::Real| #[trigger]
        call_ensures(K::attenuate, (&k, a, alpha), b) ==> log(b) == log(a) - step * worth(alpha)
}

proof fn lemma_march_dims<K: Beam1d>(
    k: K,
    incident: K::Real,
    alpha: Seq<K::Real>,
    faces: Seq<K::Real>,
    worth: spec_fn(K::Real) -> real,
    log: spec_fn(K::Real) -> real,
    step: real,
    i: nat,
)
    requires
        dims_by_the_depth(k, worth, log, step),
        is_march(k, incident, alpha, faces),
        i <= alpha.len(),
    ensures
        log(faces[i as int]) == log(incident) - step * line_sum(|c: int| worth(alpha[c]), i),
    decreases i,
{
    let f = |c: int| worth(alpha[c]);
    if i > 0 {
        let m = (i - 1) as nat;
        lemma_march_dims(k, incident, alpha, faces, worth, log, step, m);
        assert(alpha[m as int] == alpha[m as int]);
        assert(log(faces[i as int]) == log(faces[m as int]) - step * worth(alpha[m as int])) by {
            reveal(dims_by_the_depth);
        }
        lemma_distributes(line_sum(f, m), f(m as int), step);
    } else {
        assert(step * 0real == 0real) by (nonlinear_arith);
    }
}

/// The light of a frame is what its absorption has left of the beam: at each cell the
/// logarithm of the intensity is that of the incident beam less the depth of the cells
/// before it, and the optical depth is that of all cells.
pub proof fn law_light_of_a_frame_falls_with_its_depth<K: LsdCase>(
    k: K,
    p: LsdParams<K::Real>,
    t_end: K::Real,
    i: int,
    pre: Column1d<K::Hydro>,
    post: Column1d<K::Hydro>,
    f: LsdFrame<K::Real>,
    worth: spec_fn(K::Real) -> real,
    log: spec_fn(K::Real) -> real,
    step: real,
    c: nat,
)
    requires
        is_frame(k, p, t_end, i, pre, post, Ok(f)),
        is_repeatable_column(post.hydro.scheme),
        dims_by_the_depth(post.hydro.scheme, worth, log, step),
        c < post.hydro.cells.len(),
    ensures
        f.absorption@.len() == f.intensity@.len() == post.hydro.cells.len(),
        f.intensity@[0] == post.incident,
        log(f.intensity@[c as int]) == log(post.incident) - step * line_sum(
            |l: int| worth(f.absorption@[l]),
            c,
        ),
        worth(f.optical_depth) == step * line_sum(
            |l: int| worth(f.absorption@[l]),
            f.absorption@.len(),
        ),
{
    let (looks, states, faces) = lemma_frame_of(k, p, t_end, i, pre, post, f);
    let h = post.hydro.scheme;
    let alpha = choose|alpha: Seq<K::Real>| #[trigger]
        is_march(h, looks.absorbing.incident, alpha, faces) && is_alpha_profile(
            looks.absorbing,
            looks.lit,
            Ok(alpha),
        );
    let (beta, sum) = choose|alpha: Seq<K::Real>, sum: K::Real| #[trigger]
        is_sum(looks.lit.hydro.scheme, alpha, sum) && is_alpha_profile(looks.lit, post, Ok(alpha))
            && call_ensures(
            <K::Hydro as Scheme1d>::integral,
            (&looks.lit.hydro.scheme, sum),
            f.optical_depth,
        );
    lemma_alpha_is_of_the_gas(
        looks.judged,
        looks.absorbing,
        looks.absorbing,
        looks.lit,
        f.absorption@,
        alpha,
    );
    lemma_alpha_is_of_the_gas(
        looks.judged,
        looks.lit,
        looks.absorbing,
        post,
        f.absorption@,
        beta,
    );
    lemma_march_dims(h, post.incident, alpha, faces, worth, log, step, c);
    assert(f.intensity@[c as int] == faces[c as int]);
    assert(worth(sum) == tally(worth, beta)) by {
        reveal(dims_by_the_depth);
        lemma_sum_measures(h, beta, sum, worth);
    }
    lemma_tally_is_the_line_sum(worth, beta);
    reveal(dims_by_the_depth);
}

/// Pressures are compared by their worth.
#[verifier::opaque]
pub open spec fn compares_by<K: Beam1d>(k: K, worth: spec_fn(K::Real) -> real) -> bool {
    &&& forall|a: K::Real, b: K::Real, g: bool| #[trigger]
        call_ensures(K::reaches, (&k, a, b), g) ==> g == (worth(a) >= worth(b))
    &&& forall|a: K::Real, b: K::Real, c: K::Real| #[trigger]
        call_ensures(K::larger, (&k, a, b), c) ==> worth(c) >= worth(a) && worth(c) >= worth(b)
            && (c == a || c == b)
}

proof fn lemma_max_is_the_largest<K: Beam1d>(
    k: K,
    start: K::Real,
    values: Seq<K::Real>,
    run: Seq<K::Real>,
    worth: spec_fn(K::Real) -> real,
    i: int,
)
    requires
        compares_by(k, worth),
        is_max_run(k, start, values, run),
        0 <= i <= values.len(),
    ensures
        forall|c: int| 0 <= c < i ==> worth(#[trigger] values[c]) <= worth(run[i]),
        run[i] == start || exists|c: int| 0 <= c < i && #[trigger] values[c] == run[i],
    decreases i,
{
    if i > 0 {
        lemma_max_is_the_largest(k, start, values, run, worth, i - 1);
        assert(call_ensures(K::larger, (&k, run[i - 1], values[i - 1]), run[i - 1 + 1]));
        reveal(compares_by);
    }
}

/// The front of a frame is where its pressure first rises to half of its peak: no
/// pressure of the frame is above the peak, every cell before the front is below the
/// level, and the cell at the front reaches it. The front lies between that cell and the
/// one before it, or at the first cell.
pub proof fn law_front_is_where_the_pressure_rises<K: LsdCase>(
    k: K,
    p: LsdParams<K::Real>,
    t_end: K::Real,
    i: int,
    pre: Column1d<K::Hydro>,
    post: Column1d<K::Hydro>,
    f: LsdFrame<K::Real>,
    worth: spec_fn(K::Real) -> real,
)
    requires
        is_frame(k, p, t_end, i, pre, post, Ok(f)),
        is_repeatable_column(post.hydro.scheme),
        compares_by(post.hydro.scheme, worth),
        f.front_x is Some,
    ensures
        exists|peak: K::Real, level: K::Real, c: int|
            {
                &&& #[trigger] call_ensures(
                    <K::Hydro as Beam1d>::half_rise,
                    (&post.hydro.scheme, peak, post.ambient),
                    level,
                )
                &&& #[trigger] is_rise(f.pressure@, worth, peak, level, c)
                &&& if c == 0 {
                    call_ensures(
                        <K::Hydro as Scheme1d>::x_centre,
                        (&post.hydro.scheme, 0usize),
                        f.front_x->0,
                    )
                } else {
                    call_ensures(
                        <K::Hydro as Beam1d>::crossing,
                        (
                            &post.hydro.scheme,
                            level,
                            shown_state(f, c - 1),
                            shown_state(f, c),
                            c as usize,
                        ),
                        f.front_x->0,
                    )
                }
            },
{
    let (looks, states, faces) = lemma_frame_of(k, p, t_end, i, pre, post, f);
    let h = post.hydro.scheme;
    let own = choose|own: Seq<Primitive<K::Real>>| #[trigger]
        are_states(post, own) && is_front_in(h, post.ambient, own, f.front_x);
    assert(own =~= states) by {
        reveal(flows_alike);
    }
    let (q, peak, level) = choose|q: Seq<K::Real>, peak: K::Real, level: K::Real| #[trigger]
        is_front_found(h, post.ambient, own, q, peak, level, f.front_x);
    assert(q =~= f.pressure@) by {
        assert forall|c: int| 0 <= c < q.len() implies q[c] == f.pressure@[c] by {
            assert(states[c] == states[c]);
        }
    }
    let low = choose|lowest: K::Real| #[trigger]
        call_ensures(<K::Hydro as Beam1d>::lowest, (&h,), lowest) && is_max(h, lowest, q, peak);
    let run = choose|run: Seq<K::Real>| #[trigger]
        is_max_run(h, low, q, run) && run.last() == peak;
    lemma_max_is_the_largest(h, low, q, run, worth, q.len() as int);
    let c = choose|c: int| #[trigger]
        is_first_reaching(h, q, level, c) && is_front_at(h, own, level, c, f.front_x->0);
    assert forall|l: int| 0 <= l < c implies worth(#[trigger] q[l]) < worth(level) by {
        assert(q.subrange(0, c)[l] == q[l]);
        reveal(compares_by);
    }
    assert(worth(q[c]) >= worth(level)) by {
        reveal(compares_by);
    }
    assert(is_rise(f.pressure@, worth, peak, level, c));
    assert(states[c] == shown_state(f, c));
    if c > 0 {
        assert(states[c - 1] == shown_state(f, c - 1));
    }
}

/// The state that a frame shows of a cell.
pub open spec fn shown_state<R>(f: LsdFrame<R>, c: int) -> Primitive<R> {
    Primitive { rho: f.density@[c], u: f.velocity@[c], p: f.pressure@[c] }
}

/// Cell `c` is the first whose pressure reaches `level`, and none is above `peak`.
pub open spec fn is_rise<R>(
    pressure: Seq<R>,
    worth: spec_fn(R) -> real,
    peak: R,
    level: R,
    c: int,
) -> bool {
    &&& 0 <= c < pressure.len()
    &&& forall|l: int| 0 <= l < pressure.len() ==> worth(#[trigger] pressure[l]) <= worth(peak)
    &&& forall|l: int| 0 <= l < c ==> worth(#[trigger] pressure[l]) < worth(level)
    &&& worth(pressure[c]) >= worth(level)
}

/// A column that has reached its time stays as it is.
proof fn lemma_no_march<K: Beam1d>(pre: Column1d<K>, t: K::Real, post: Column1d<K>)
    requires
        is_advance_to(pre, t, post, Ok(())),
        !call_ensures(K::is_before, (&pre.hydro.scheme, pre.hydro.time, t), true),
    ensures
        post == pre,
{
    let trace = choose|trace: Seq<Column1d<K>>| #[trigger]
        is_march_to(pre, t, trace) && is_march_over(trace.last(), t, post, Ok(()));
    if trace.len() > 1 {
        assert(is_marched_at(trace, t, 0));
    }
}

/// The first frame of a wave is the gas as it was lit. Where the first frame is taken at
/// the start, and nothing is lost on the way from a state to its conserved form and back,
/// a cell outside the seed has the ambient pressure and density that were asked for, and
/// a cell inside it has the seed's pressure and the ambient density.
pub proof fn law_first_frame_is_the_lit_gas<K: LsdCase>(
    k: K,
    p: LsdParams<K::Real>,
    rho_0: K::Real,
    speed: K::Real,
    wave: Wave<K::Real>,
    c: int,
)
    requires
        is_wave(k, p, rho_0, speed, Ok(wave)),
        p.frames > 0,
        0 <= c < p.cells,
        forall|h: K::Hydro, t_end: K::Real, zero: K::Real, t: K::Real|
            #![trigger call_ensures(K::hydro, (&k, p.length, p.cells), h), call_ensures(<K::Hydro as Acoustics>::zero, (&h,), zero), call_ensures(K::frame_time, (&k, 0usize, t_end, p.frames), t)]
            call_ensures(K::hydro, (&k, p.length, p.cells), h) && call_ensures(
                <K::Hydro as Acoustics>::zero,
                (&h,),
                zero,
            ) && call_ensures(K::frame_time, (&k, 0usize, t_end, p.frames), t) ==> !call_ensures(
                <K::Hydro as Scheme1d>::is_before,
                (&h, zero, t),
                true,
            ),
        forall|h: K::Hydro, w: Primitive<K::Real>, u: Conserved<K::Real>, v:
            Primitive<K::Real>|
            #![trigger call_ensures(K::hydro, (&k, p.length, p.cells), h), call_ensures(<K::Hydro as Scheme1d>::to_conserved, (&h, w), u), call_ensures(<K::Hydro as Scheme1d>::to_primitive, (&h, u), v)]
            call_ensures(K::hydro, (&k, p.length, p.cells), h) && call_ensures(
                <K::Hydro as Scheme1d>::to_conserved,
                (&h, w),
                u,
            ) && call_ensures(<K::Hydro as Scheme1d>::to_primitive, (&h, u), v) ==> v == w,
        forall|a: Primitive<K::Real>| #[trigger]
            call_ensures(K::ambient, (&k, rho_0, p.p0), a) ==> a.rho == rho_0 && a.p == p.p0,
    ensures
        wave.frames@.len() == p.frames,
        wave.frames@[0].pressure@.len() == wave.frames@[0].density@.len() == p.cells,
        wave.frames@[0].density@[c] == rho_0,
        exists|h: K::Hydro, seed: SeededIgnition<K::Real>, x: K::Real|
            {
                &&& #[trigger] call_ensures(K::hydro, (&k, p.length, p.cells), h)
                &&& #[trigger] call_ensures(K::hot_spot, (&k, p.length, rho_0, speed), seed)
                &&& #[trigger] call_ensures(
                    <K::Hydro as Scheme1d>::x_centre,
                    (&h, c as usize),
                    x,
                )
                &&& {
                    ||| call_ensures(<K::Hydro as Beam1d>::is_in_seed, (&h, seed, x), false)
                        && wave.frames@[0].pressure@[c] == p.p0
                    ||| call_ensures(<K::Hydro as Beam1d>::is_in_seed, (&h, seed, x), true)
                        && wave.frames@[0].pressure@[c] == seed.pressure
                }
            },
{
    let s = choose|s: WaveStart<K>| #[trigger]
        is_wave_start(k, p, rho_0, speed, s) && exists|
            column: LsdColumn<K::Hydro>,
            post: Column1d<K::Hydro>,
        | #[trigger]
            is_wave_run(k, p, s, column, post, Ok(wave));
    let (column, last) = choose|column: LsdColumn<K::Hydro>, post: Column1d<K::Hydro>| #[trigger]
        is_wave_run(k, p, s, column, post, Ok(wave));
    let (states, built) = choose|
        states: Seq<Primitive<K::Real>>,
        built: Result<Euler1d<K::Hydro>, EulerError>,
    | #[trigger]
        is_seeded(
            s.hydro,
            p.cells,
            s.ambient,
            s.seed,
            Absorption::GreyThreshold { alpha: p.alpha, e_ignite: s.e_ignite },
            p.drive,
            states,
            built,
            Ok(column),
        );
    let columns = choose|columns: Seq<Column1d<K::Hydro>>| #[trigger]
        are_frames(k, p, s.t_end, columns, wave.frames@) && columns[0] == column@
            && columns.last() == last;
    assert(is_frame_leg(k, p, s.t_end, columns, wave.frames@, 0));
    let f = wave.frames@[0];
    let (looks, seen, faces) = lemma_frame_of(k, p, s.t_end, 0, columns[0], columns[1], f);
    let t = choose|t: K::Real| #[trigger]
        call_ensures(K::frame_time, (&k, 0usize, s.t_end, p.frames), t) && is_advance_to(
            columns[0],
            t,
            looks.arrived,
            Ok(()),
        );
    let h = s.hydro;
    let start = columns[0];
    assert(start.hydro.scheme == h);
    assert(call_ensures(
        <K::Hydro as Acoustics>::zero,
        (&h,),
        start.hydro.time,
    ));
    lemma_no_march(start, t, looks.arrived);
    assert(states[c] == states[c]);
    assert(call_ensures(
        <K::Hydro as Scheme1d>::to_conserved,
        (&h, states[c]),
        start.hydro.cells[c],
    ));
    assert(call_ensures(
        <K::Hydro as Scheme1d>::to_primitive,
        (&h, start.hydro.cells[c]),
        seen[c],
    ));
    assert(seen[c] == states[c]);
    assert(is_seeded_state(h, s.seed, s.ambient, c, states[c]));
    let x = choose|x: K::Real|
        {
            &&& #[trigger] call_ensures(<K::Hydro as Scheme1d>::x_centre, (&h, c as usize), x)
            &&& {
                ||| call_ensures(<K::Hydro as Beam1d>::is_in_seed, (&h, s.seed, x), true)
                    && states[c] == (Primitive { p: s.seed.pressure, ..s.ambient })
                ||| call_ensures(<K::Hydro as Beam1d>::is_in_seed, (&h, s.seed, x), false)
                    && states[c] == s.ambient
            }
        };
    assert(call_ensures(K::hot_spot, (&k, p.length, rho_0, speed), s.seed));
}

} // verus!

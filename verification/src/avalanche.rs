//! What the traces and thresholds of a breakdown run say of each other.
//!
//! A trace is the model's own pulse, seen step by step: it is driven at each step by the
//! pulse at the time of that step. So a trace breaks down where the model says that a
//! pulse of its peak intensity does, and a threshold is the edge of breakdown at the
//! pressure that it is reported with.
use crate::algebra::lemma_associates;
use crate::breakdown0d::{
    law_bracket_is_kept, law_brackets_are_nested, law_peak_is_the_largest_density, AirBreakdown,
    Kinetics, Model, Pulse, MAX_BISECTIONS,
};
use crate::breakdown_case::{
    are_curves, are_shown, are_times, is_breakdown_run, is_case_model, is_curve_point, is_driven,
    is_flat_edge, is_neutral_at, is_reported, is_steep_edge, is_swept, is_theory_at, is_trace,
    is_trace_leg, is_trace_run, BreakdownCase, BreakdownParams, BreakdownRun, Curves,
};
use crate::breakdown_replay::{is_repeatable, lemma_advance_is_one, lemma_seed_is_one};
use crate::validate::Fitting;
use vstd::prelude::*;

verus! {

/// A trace and the model's own pulse are cut into the same slices, and see the same
/// intensity in each.
#[verifier::opaque]
pub open spec fn samples_alike<K: BreakdownCase>(m: Model<K>, p: BreakdownParams<K::Real>) -> bool {
    let k = m.kinetics;
    &&& forall|half: K::Real, dt: K::Real, e: K::Real|
        #![trigger call_ensures(K::pulse_step, (&k, half, p.steps), dt), call_ensures(K::trace_step, (&k, p.fwhm, p.steps), e)]
        call_ensures(K::half_window, (&k, m.window, p.fwhm), half) && call_ensures(
            K::pulse_step,
            (&k, half, p.steps),
            dt,
        ) && call_ensures(K::trace_step, (&k, p.fwhm, p.steps), e) ==> e == dt
    &&& forall|
        half: K::Real,
        dt: K::Real,
        drive: K::Real,
        s: usize,
        t: K::Real,
        a: K::Real,
        b: K::Real,
    |
        #![trigger call_ensures(K::trace_time, (&k, p.fwhm, dt, s), t), call_ensures(K::trace_intensity, (&k, drive, p.fwhm, t), a), call_ensures(K::pulse_intensity, (&k, drive, p.fwhm, half, dt, s), b)]
        s < p.steps && call_ensures(K::half_window, (&k, m.window, p.fwhm), half) && call_ensures(
            K::trace_time,
            (&k, p.fwhm, dt, s),
            t,
        ) && call_ensures(K::trace_intensity, (&k, drive, p.fwhm, t), a) && call_ensures(
            K::pulse_intensity,
            (&k, drive, p.fwhm, half, dt, s),
            b,
        ) ==> a == b
}

/// Numbers are compared by their worth, and the larger of two is no less than either.
#[verifier::opaque]
pub open spec fn compares_by<K: Kinetics>(k: K, worth: spec_fn(K::Real) -> real) -> bool {
    &&& forall|a: K::Real, b: K::Real, g: bool| #[trigger]
        call_ensures(K::exceeds, (&k, a, b), g) ==> g == (worth(a) > worth(b))
    &&& forall|a: K::Real, b: K::Real, g: bool| #[trigger]
        call_ensures(K::reaches, (&k, a, b), g) ==> g == (worth(a) >= worth(b))
    &&& forall|a: K::Real, b: K::Real, c: K::Real| #[trigger]
        call_ensures(K::larger, (&k, a, b), c) ==> worth(c) >= worth(a) && worth(c) >= worth(b)
            && (c == a || c == b)
}

/// More electrons at the start of a slice leave more at its end.
pub open spec fn advances_in_order<K: Kinetics>(m: Model<K>, worth: spec_fn(K::Real) -> real) -> bool {
    forall|
        intensity: K::Real,
        pressure: K::Real,
        dt: K::Real,
        a: K::Real,
        b: K::Real,
        x: K::Real,
        y: K::Real,
    |
        #![trigger m.is_advanced(a, intensity, pressure, dt, x), m.is_advanced(b, intensity, pressure, dt, y)]
        m.is_advanced(a, intensity, pressure, dt, x) && m.is_advanced(b, intensity, pressure, dt, y)
            && worth(a) >= worth(b) ==> worth(x) >= worth(y)
}

/// With an explicit seed a trace is the model's own pulse: step by step it has the
/// densities that the model finds through a pulse of the same peak intensity, at the
/// same pressure and in as many slices.
pub proof fn law_trace_is_the_pulse<K: BreakdownCase>(
    m: Model<K>,
    p: BreakdownParams<K::Real>,
    drive: K::Real,
    dt: K::Real,
    torr: K::Real,
    times: Seq<K::Real>,
    seed: K::Real,
    row: Seq<K::Real>,
    pulse: Pulse<K::Real>,
    densities: Seq<K::Real>,
    peaks: Seq<K::Real>,
    i: int,
)
    requires
        is_trace(m, p, drive, dt, torr, times, seed, row),
        are_times(m.kinetics, p, dt, times),
        m.is_pulse(drive, p.fwhm, pulse.pressure, p.steps, pulse),
        m.is_pulse_run(pulse, densities, peaks),
        densities.len() == p.steps + 1,
        m.seed is Some,
        samples_alike(m, p),
        is_repeatable(m.kinetics),
        forall|a: K::Real, b: K::Real, c: K::Real, d: K::Real|
            #![trigger call_ensures(K::larger, (&m.kinetics, a, b), c), call_ensures(K::larger, (&m.kinetics, a, b), d)]
            call_ensures(K::larger, (&m.kinetics, a, b), c) && call_ensures(
                K::larger,
                (&m.kinetics, a, b),
                d,
            ) ==> c == d,
        forall|pressure: K::Real| #[trigger]
            call_ensures(K::pascals, (&m.kinetics, torr), pressure) ==> pressure == pulse.pressure,
        0 <= i <= p.steps,
    ensures
        row.len() == p.steps,
        (seq![seed] + row)[i] == densities[i],
    decreases i,
{
    let pressure = choose|pressure: K::Real|
        {
            &&& #[trigger] call_ensures(K::pascals, (&m.kinetics, torr), pressure)
            &&& is_trace_run(m, p, drive, dt, pressure, times, seq![seed] + row)
            &&& row.len() == times.len()
        };
    let run = seq![seed] + row;
    if i > 0 {
        let s = i - 1;
        law_trace_is_the_pulse(
            m,
            p,
            drive,
            dt,
            torr,
            times,
            seed,
            row,
            pulse,
            densities,
            peaks,
            s,
        );
        assert(is_trace_leg(m, p, drive, dt, pressure, times, run, s));
        assert(m.is_pulse_leg(pulse, densities, peaks, s));
        let (a, x) = choose|a: K::Real, x: K::Real|
            {
                &&& #[trigger] call_ensures(
                    K::trace_intensity,
                    (&m.kinetics, drive, p.fwhm, times[s]),
                    a,
                )
                &&& #[trigger] m.is_advanced(run[s], a, pressure, dt, x)
                &&& call_ensures(K::larger, (&m.kinetics, x, run[0]), run[s + 1])
            };
        let (b, y) = choose|b: K::Real, y: K::Real|
            {
                &&& #[trigger] call_ensures(
                    K::pulse_intensity,
                    (&m.kinetics, pulse.i_peak, pulse.fwhm, pulse.half, pulse.dt, s as usize),
                    b,
                )
                &&& #[trigger] m.is_advanced(densities[s], b, pulse.pressure, pulse.dt, y)
                &&& match m.seed {
                    Some(floor) => call_ensures(K::larger, (&m.kinetics, y, floor), densities[s + 1]),
                    None => densities[s + 1] == y,
                }
            };
        assert(dt == pulse.dt && a == b) by {
            reveal(samples_alike);
            assert(call_ensures(K::trace_time, (&m.kinetics, p.fwhm, dt, s as usize), times[s]));
        }
        lemma_advance_is_one(m, run[s], a, pressure, dt, x, y);
    } else {
        assert(run[0] == seed);
        lemma_seed_is_one(m, pressure, run[0], densities[0]);
    }
}

/// A trace is nowhere below the model's own pulse from the same seed.
pub proof fn law_trace_keeps_up_with_the_pulse<K: BreakdownCase>(
    m: Model<K>,
    p: BreakdownParams<K::Real>,
    drive: K::Real,
    dt: K::Real,
    torr: K::Real,
    times: Seq<K::Real>,
    seed: K::Real,
    row: Seq<K::Real>,
    pulse: Pulse<K::Real>,
    densities: Seq<K::Real>,
    peaks: Seq<K::Real>,
    worth: spec_fn(K::Real) -> real,
    i: int,
)
    requires
        is_trace(m, p, drive, dt, torr, times, seed, row),
        are_times(m.kinetics, p, dt, times),
        m.is_pulse(drive, p.fwhm, pulse.pressure, p.steps, pulse),
        m.is_pulse_run(pulse, densities, peaks),
        densities.len() == p.steps + 1,
        samples_alike(m, p),
        is_repeatable(m.kinetics),
        compares_by(m.kinetics, worth),
        advances_in_order(m, worth),
        forall|pressure: K::Real| #[trigger]
            call_ensures(K::pascals, (&m.kinetics, torr), pressure) ==> pressure == pulse.pressure,
        0 <= i <= p.steps,
    ensures
        row.len() == p.steps,
        seed == densities[0],
        worth((seq![seed] + row)[i]) >= worth(densities[i]),
    decreases i,
{
    let pressure = choose|pressure: K::Real|
        {
            &&& #[trigger] call_ensures(K::pascals, (&m.kinetics, torr), pressure)
            &&& is_trace_run(m, p, drive, dt, pressure, times, seq![seed] + row)
            &&& row.len() == times.len()
        };
    let run = seq![seed] + row;
    assert(run[0] == seed);
    lemma_seed_is_one(m, pressure, run[0], densities[0]);
    if i > 0 {
        let s = i - 1;
        law_trace_keeps_up_with_the_pulse(
            m,
            p,
            drive,
            dt,
            torr,
            times,
            seed,
            row,
            pulse,
            densities,
            peaks,
            worth,
            s,
        );
        assert(is_trace_leg(m, p, drive, dt, pressure, times, run, s));
        assert(m.is_pulse_leg(pulse, densities, peaks, s));
        let (a, x) = choose|a: K::Real, x: K::Real|
            {
                &&& #[trigger] call_ensures(
                    K::trace_intensity,
                    (&m.kinetics, drive, p.fwhm, times[s]),
                    a,
                )
                &&& #[trigger] m.is_advanced(run[s], a, pressure, dt, x)
                &&& call_ensures(K::larger, (&m.kinetics, x, run[0]), run[s + 1])
            };
        let (b, y) = choose|b: K::Real, y: K::Real|
            {
                &&& #[trigger] call_ensures(
                    K::pulse_intensity,
                    (&m.kinetics, pulse.i_peak, pulse.fwhm, pulse.half, pulse.dt, s as usize),
                    b,
                )
                &&& #[trigger] m.is_advanced(densities[s], b, pulse.pressure, pulse.dt, y)
                &&& match m.seed {
                    Some(floor) => call_ensures(K::larger, (&m.kinetics, y, floor), densities[s + 1]),
                    None => densities[s + 1] == y,
                }
            };
        assert(dt == pulse.dt && a == b) by {
            reveal(samples_alike);
            assert(call_ensures(K::trace_time, (&m.kinetics, p.fwhm, dt, s as usize), times[s]));
        }
        assert(worth(x) >= worth(y));
        assert(worth(run[s + 1]) >= worth(densities[s + 1])) by {
            reveal(compares_by);
            if m.seed is Some {
                assert(densities[0] == m.seed->0);
            }
        }
    }
}

/// What a run reports, with the model that it reports of.
proof fn lemma_reported<K: BreakdownCase, F: Fitting<Real = K::Real>>(
    k: K,
    fit: F,
    p: BreakdownParams<K::Real>,
    run: BreakdownRun<K::Real>,
) -> (r: (AirBreakdown<K>, Model<K>, Model<K>, Curves<K::Real>))
    requires
        is_breakdown_run(k, fit, p, Ok(run)),
    ensures
        is_case_model(k, p.wavelength, Ok(r.0)),
        are_curves(r.0@, r.1, r.2, p, r.3),
        is_reported(r.0@, fit, p, r.3, run),
{
    let model = choose|model: AirBreakdown<K>| #[trigger]
        is_case_model(k, p.wavelength, Ok(model)) && is_swept(model@, fit, p, Ok(run));
    let (flat, steep, c) = choose|flat: Model<K>, steep: Model<K>, c: Curves<K::Real>| #[trigger]
        are_curves(model@, flat, steep, p, c) && is_reported(model@, fit, p, c, run);
    (model, flat, steep, c)
}

/// A trace of a run breaks down where the model says that a pulse does: at every
/// pressure of the run at which a pulse of the reported drive reaches breakdown, the
/// trace reaches the reported density of breakdown.
pub proof fn law_traces_break_down_where_the_model_does<
    K: BreakdownCase,
    F: Fitting<Real = K::Real>,
>(
    k: K,
    fit: F,
    p: BreakdownParams<K::Real>,
    run: BreakdownRun<K::Real>,
    worth: spec_fn(K::Real) -> real,
    i: int,
)
    requires
        is_breakdown_run(k, fit, p, Ok(run)),
        forall|model: AirBreakdown<K>| #[trigger]
            is_case_model(k, p.wavelength, Ok(model)) ==> {
                &&& samples_alike(model@, p)
                &&& is_repeatable(model@.kinetics)
                &&& compares_by(model@.kinetics, worth)
                &&& advances_in_order(model@, worth)
                &&& forall|torr: K::Real, a: K::Real, b: K::Real|
                    #![trigger call_ensures(K::pascals, (&model@.kinetics, torr), a), call_ensures(K::pascals, (&model@.kinetics, torr), b)]
                    call_ensures(K::pascals, (&model@.kinetics, torr), a) && call_ensures(
                        K::pascals,
                        (&model@.kinetics, torr),
                        b,
                    ) ==> a == b
            },
        0 <= i < run.pressure_torr@.len(),
    ensures
        run.ne_traces@.len() == run.pressure_torr@.len() == run.n_seed@.len(),
        exists|model: AirBreakdown<K>, drive: K::Real, pressure: K::Real|
            {
                &&& is_case_model(k, p.wavelength, Ok(model))
                &&& #[trigger] call_ensures(
                    K::pascals,
                    (&model@.kinetics, run.pressure_torr@[i]),
                    pressure,
                )
                &&& #[trigger] call_ensures(
                    K::per_square_centimetre,
                    (&model@.kinetics, drive),
                    run.drive_intensity,
                )
                &&& run.n_bd == model@.criterion
                &&& model@.is_breakdown(drive, p.fwhm, pressure, p.steps, true) ==> exists|s: int|
                    0 <= s <= p.steps && worth(
                        #[trigger] (seq![run.n_seed@[i]] + run.ne_traces@[i])[s],
                    ) >= worth(run.n_bd)
            },
{
    let (model, flat, steep, c) = lemma_reported(k, fit, p, run);
    let m = model@;
    let (drive, dt) = choose|drive: K::Real, dt: K::Real| #[trigger]
        is_driven(m, p, c, drive, dt, run);
    let torr = c.central[i].0;
    assert(run.pressure_torr@[i] == torr);
    let (seed, row) = (run.n_seed@[i], run.ne_traces@[i]);
    assert(is_trace(m, p, drive, dt, torr, run.trace_time@, seed, row));
    let pressure = choose|pressure: K::Real|
        {
            &&& #[trigger] call_ensures(K::pascals, (&m.kinetics, torr), pressure)
            &&& is_trace_run(m, p, drive, dt, pressure, run.trace_time@, seq![seed] + row)
            &&& row.len() == run.trace_time@.len()
        };
    if m.is_breakdown(drive, p.fwhm, pressure, p.steps, true) {
        let peak = choose|peak: K::Real| #[trigger]
            m.is_peak(drive, p.fwhm, pressure, p.steps, peak) && call_ensures(
                K::reaches,
                (&m.kinetics, peak, m.criterion),
                true,
            );
        let (pulse, densities, peaks) = choose|
            pulse: Pulse<K::Real>,
            densities: Seq<K::Real>,
            peaks: Seq<K::Real>,
        |
            {
                &&& m.is_pulse(drive, p.fwhm, pressure, p.steps, pulse)
                &&& #[trigger] m.is_pulse_run(pulse, densities, peaks)
                &&& densities.len() == p.steps + 1
                &&& peaks.last() == peak
            };
        assert(worth(peak) >= worth(m.criterion)) by {
            reveal(compares_by);
        }
        assert(exists|s: int| 0 <= s <= p.steps && #[trigger] densities[s] == peak) by {
            reveal(compares_by);
            law_peak_is_the_largest_density(m, pulse, densities, peaks, worth, p.steps as int);
        }
        let s = choose|s: int| 0 <= s <= p.steps && #[trigger] densities[s] == peak;
        law_trace_keeps_up_with_the_pulse(
            m,
            p,
            drive,
            dt,
            torr,
            run.trace_time@,
            seed,
            row,
            pulse,
            densities,
            peaks,
            worth,
            s,
        );
        assert(worth((seq![seed] + row)[s]) >= worth(run.n_bd));
    }
}

/// A threshold lies between an intensity without breakdown and one with it.
pub(crate) proof fn lemma_threshold_is_bracketed<K: Kinetics>(
    m: Model<K>,
    fwhm: K::Real,
    pressure: K::Real,
    steps: usize,
    t: K::Real,
    size: spec_fn(K::Real) -> real,
) -> (r: (K::Real, K::Real))
    requires
        m.is_threshold(fwhm, pressure, steps, Ok(t)),
        forall|a: K::Real, b: K::Real, c: K::Real| #[trigger]
            call_ensures(K::geometric_mean, (&m.kinetics, a, b), c) && 0real <= size(a) <= size(b)
                ==> size(a) <= size(c) <= size(b),
        forall|a: K::Real, b: K::Real|
            #![trigger call_ensures(K::bracket_floor, (&m.kinetics,), a), call_ensures(K::bracket_ceiling, (&m.kinetics,), b)]
            call_ensures(K::bracket_floor, (&m.kinetics,), a) && call_ensures(
                K::bracket_ceiling,
                (&m.kinetics,),
                b,
            ) ==> 0real <= size(a) <= size(b),
    ensures
        m.is_breakdown(r.0, fwhm, pressure, steps, false),
        m.is_breakdown(r.1, fwhm, pressure, steps, true),
        size(r.0) <= size(t) <= size(r.1),
{
    let trace = choose|trace: Seq<(K::Real, K::Real)>|
        {
            &&& #[trigger] m.is_search(fwhm, pressure, steps, trace)
            &&& trace.len() == MAX_BISECTIONS + 1 || (trace.len() > 1 && m.is_narrow_at(
                trace,
                trace.len() - 1,
                true,
            ))
            &&& call_ensures(
                K::geometric_mean,
                (&m.kinetics, trace.last().0, trace.last().1),
                t,
            )
        };
    law_bracket_is_kept(m, fwhm, pressure, steps, trace, trace.len() - 1);
    if trace.len() > 1 {
        law_brackets_are_nested(m, fwhm, pressure, steps, trace, size, trace.len() - 2);
    }
    trace.last()
}

/// A threshold is the edge of breakdown at the pressure that it is reported with: it is
/// found between an intensity at which the gas does not break down at that pressure and
/// one at which it does.
pub proof fn law_thresholds_mark_breakdown<K: BreakdownCase, F: Fitting<Real = K::Real>>(
    k: K,
    fit: F,
    p: BreakdownParams<K::Real>,
    run: BreakdownRun<K::Real>,
    size: spec_fn(K::Real) -> real,
    i: int,
)
    requires
        is_breakdown_run(k, fit, p, Ok(run)),
        forall|model: AirBreakdown<K>, a: K::Real, b: K::Real, c: K::Real|
            #![trigger is_case_model(k, p.wavelength, Ok(model)), call_ensures(K::geometric_mean, (&model@.kinetics, a, b), c)]
            is_case_model(k, p.wavelength, Ok(model)) && call_ensures(
                K::geometric_mean,
                (&model@.kinetics, a, b),
                c,
            ) && 0real <= size(a) <= size(b) ==> size(a) <= size(c) <= size(b),
        forall|model: AirBreakdown<K>, a: K::Real, b: K::Real|
            #![trigger is_case_model(k, p.wavelength, Ok(model)), call_ensures(K::bracket_floor, (&model@.kinetics,), a), call_ensures(K::bracket_ceiling, (&model@.kinetics,), b)]
            is_case_model(k, p.wavelength, Ok(model)) && call_ensures(
                K::bracket_floor,
                (&model@.kinetics,),
                a,
            ) && call_ensures(K::bracket_ceiling, (&model@.kinetics,), b) ==> 0real <= size(a)
                <= size(b),
        0 <= i < run.pressure_torr@.len(),
    ensures
        run.threshold@.len() == run.pressure_torr@.len(),
        exists|model: AirBreakdown<K>, pressure: K::Real, lo: K::Real, hi: K::Real, t: K::Real|
            {
                &&& is_case_model(k, p.wavelength, Ok(model))
                &&& #[trigger] call_ensures(
                    K::pascals,
                    (&model@.kinetics, run.pressure_torr@[i]),
                    pressure,
                )
                &&& #[trigger] call_ensures(
                    K::per_square_centimetre,
                    (&model@.kinetics, t),
                    run.threshold@[i],
                )
                &&& #[trigger] model@.is_breakdown(lo, p.fwhm, pressure, p.steps, false)
                &&& #[trigger] model@.is_breakdown(hi, p.fwhm, pressure, p.steps, true)
                &&& size(lo) <= size(t) <= size(hi)
            },
{
    let (model, flat, steep, c) = lemma_reported(k, fit, p, run);
    let m = model@;
    assert(is_curve_point(m, p, i, c.central[i].0, Ok(c.central[i].1)));
    let torr = c.central[i].0;
    let t = c.central[i].1;
    assert(run.pressure_torr@[i] == torr);
    assert(call_ensures(K::per_square_centimetre, (&m.kinetics, t), run.threshold@[i]));
    let pressure = choose|pressure: K::Real|
        {
            &&& #[trigger] call_ensures(K::pascals, (&m.kinetics, torr), pressure)
            &&& m.is_threshold(p.fwhm, pressure, p.steps, Ok(t))
        };
    let (lo, hi) = lemma_threshold_is_bracketed(m, p.fwhm, pressure, p.steps, t, size);
    assert(m.is_breakdown(lo, p.fwhm, pressure, p.steps, false));
    assert(m.is_breakdown(hi, p.fwhm, pressure, p.steps, true));
    assert(size(lo) <= size(t) <= size(hi));
}

/// More losses take a stronger pulse: of two models that differ in their inelastic loss
/// alone, the one that loses more has the higher threshold.
pub open spec fn loss_raises_the_threshold<K: BreakdownCase>(
    p: BreakdownParams<K::Real>,
    worth: spec_fn(K::Real) -> real,
) -> bool {
    forall|a: Model<K>, b: Model<K>, pressure: K::Real, x: K::Real, y: K::Real|
        #![trigger a.is_threshold(p.fwhm, pressure, p.steps, Ok(x)), b.is_threshold(p.fwhm, pressure, p.steps, Ok(y))]
        a == (Model { gas: a.gas, ..b }) && worth(a.gas.delta_eff) >= worth(b.gas.delta_eff)
            && a.is_threshold(p.fwhm, pressure, p.steps, Ok(x)) && b.is_threshold(
            p.fwhm,
            pressure,
            p.steps,
            Ok(y),
        ) ==> worth(x) >= worth(y)
}

/// The reported edges lie on either side: the thresholds of the flat edge, which loses
/// more, are nowhere below those of the run, and those of the steep edge nowhere above.
pub proof fn law_edges_lie_on_either_side<K: BreakdownCase, F: Fitting<Real = K::Real>>(
    k: K,
    fit: F,
    p: BreakdownParams<K::Real>,
    run: BreakdownRun<K::Real>,
    worth: spec_fn(K::Real) -> real,
    i: int,
)
    requires
        is_breakdown_run(k, fit, p, Ok(run)),
        loss_raises_the_threshold::<K>(p, worth),
        forall|model: AirBreakdown<K>| #[trigger]
            is_case_model(k, p.wavelength, Ok(model)) ==> {
                &&& forall|loss: (K::Real, K::Real)| #[trigger]
                    call_ensures(K::large_loss, (&model@.kinetics,), loss) ==> worth(loss.0)
                        >= worth(model@.gas.delta_eff)
                &&& forall|loss: (K::Real, K::Real)| #[trigger]
                    call_ensures(K::small_loss, (&model@.kinetics,), loss) ==> worth(loss.0)
                        <= worth(model@.gas.delta_eff)
                &&& forall|x: K::Real, y: K::Real, a: K::Real, b: K::Real|
                    #![trigger call_ensures(K::per_square_centimetre, (&model@.kinetics, x), a), call_ensures(K::per_square_centimetre, (&model@.kinetics, y), b)]
                    call_ensures(K::per_square_centimetre, (&model@.kinetics, x), a) && call_ensures(
                        K::per_square_centimetre,
                        (&model@.kinetics, y),
                        b,
                    ) && worth(x) >= worth(y) ==> worth(a) >= worth(b)
                &&& forall|j: usize, x: K::Real, y: K::Real|
                    #![trigger call_ensures(K::sweep_pressure, (&model@.kinetics, p.p_min_torr, p.p_max_torr, j, p.points), x), call_ensures(K::sweep_pressure, (&model@.kinetics, p.p_min_torr, p.p_max_torr, j, p.points), y)]
                    call_ensures(
                        K::sweep_pressure,
                        (&model@.kinetics, p.p_min_torr, p.p_max_torr, j, p.points),
                        x,
                    ) && call_ensures(
                        K::sweep_pressure,
                        (&model@.kinetics, p.p_min_torr, p.p_max_torr, j, p.points),
                        y,
                    ) ==> x == y
                &&& forall|torr: K::Real, x: K::Real, y: K::Real|
                    #![trigger call_ensures(K::pascals, (&model@.kinetics, torr), x), call_ensures(K::pascals, (&model@.kinetics, torr), y)]
                    call_ensures(K::pascals, (&model@.kinetics, torr), x) && call_ensures(
                        K::pascals,
                        (&model@.kinetics, torr),
                        y,
                    ) ==> x == y
            },
        0 <= i < run.pressure_torr@.len(),
    ensures
        run.threshold@.len() == run.threshold_lo_slope@.len() == run.threshold_hi_slope@.len()
            == run.pressure_torr@.len(),
        worth(run.threshold_hi_slope@[i]) <= worth(run.threshold@[i]) <= worth(
            run.threshold_lo_slope@[i],
        ),
{
    let (model, flat, steep, c) = lemma_reported(k, fit, p, run);
    let m = model@;
    assert(is_curve_point(m, p, i, c.central[i].0, Ok(c.central[i].1)));
    assert(is_curve_point(flat, p, i, c.flat[i].0, Ok(c.flat[i].1)));
    assert(is_curve_point(steep, p, i, c.steep[i].0, Ok(c.steep[i].1)));
    let (x, y, z) = (c.central[i].1, c.flat[i].1, c.steep[i].1);
    assert(call_ensures(K::per_square_centimetre, (&m.kinetics, x), run.threshold@[i]));
    assert(call_ensures(K::per_square_centimetre, (&m.kinetics, y), run.threshold_lo_slope@[i]));
    assert(call_ensures(K::per_square_centimetre, (&m.kinetics, z), run.threshold_hi_slope@[i]));
    let a = choose|q: K::Real|
        {
            &&& #[trigger] call_ensures(K::pascals, (&m.kinetics, c.central[i].0), q)
            &&& m.is_threshold(p.fwhm, q, p.steps, Ok(x))
        };
    let b = choose|q: K::Real|
        {
            &&& #[trigger] call_ensures(K::pascals, (&flat.kinetics, c.flat[i].0), q)
            &&& flat.is_threshold(p.fwhm, q, p.steps, Ok(y))
        };
    let d = choose|q: K::Real|
        {
            &&& #[trigger] call_ensures(K::pascals, (&steep.kinetics, c.steep[i].0), q)
            &&& steep.is_threshold(p.fwhm, q, p.steps, Ok(z))
        };
    assert(is_flat_edge(m, flat) && is_steep_edge(m, steep));
    assert(flat.kinetics == m.kinetics && steep.kinetics == m.kinetics);
    assert(c.central[i].0 == c.flat[i].0 && c.central[i].0 == c.steep[i].0);
    assert(a == b && a == d);
    assert(worth(y) >= worth(x));
    assert(m == (Model { gas: m.gas, ..steep }));
    assert(worth(x) >= worth(z));
}

/// The neutrals that a run reports at a pressure are those of the model there.
pub proof fn law_neutrals_are_those_of_the_pressure<
    K: BreakdownCase,
    F: Fitting<Real = K::Real>,
>(
    k: K,
    fit: F,
    p: BreakdownParams<K::Real>,
    run: BreakdownRun<K::Real>,
    worth: spec_fn(K::Real) -> real,
    per_torr: real,
    i: int,
)
    requires
        is_breakdown_run(k, fit, p, Ok(run)),
        forall|model: AirBreakdown<K>, torr: K::Real, pressure: K::Real, n: K::Real|
            #![trigger is_case_model(k, p.wavelength, Ok(model)), call_ensures(K::pascals, (&model@.kinetics, torr), pressure), model@.is_neutral(pressure, n)]
            is_case_model(k, p.wavelength, Ok(model)) && call_ensures(
                K::pascals,
                (&model@.kinetics, torr),
                pressure,
            ) && model@.is_neutral(pressure, n) ==> worth(n) == per_torr * worth(torr),
        0 <= i < run.pressure_torr@.len(),
    ensures
        run.neutral_density@.len() == run.pressure_torr@.len(),
        worth(run.neutral_density@[i]) == per_torr * worth(run.pressure_torr@[i]),
{
    let (model, flat, steep, c) = lemma_reported(k, fit, p, run);
    let torr = c.central[i].0;
    assert(run.pressure_torr@[i] == torr);
    assert(is_neutral_at(model@, torr, run.neutral_density@[i]));
}

/// The intensity that theory gives at a pressure is that of the pressure shown beside it,
/// at the wavelength of the run.
pub proof fn law_theory_is_that_of_the_pressure<K: BreakdownCase, F: Fitting<Real = K::Real>>(
    k: K,
    fit: F,
    p: BreakdownParams<K::Real>,
    run: BreakdownRun<K::Real>,
    worth: spec_fn(K::Real) -> real,
    theory: spec_fn(real) -> real,
    i: int,
)
    requires
        is_breakdown_run(k, fit, p, Ok(run)),
        forall|
            model: AirBreakdown<K>,
            torr: K::Real,
            pressure: K::Real,
            intensity: K::Real,
            shown: K::Real,
        |
            #![trigger is_case_model(k, p.wavelength, Ok(model)), call_ensures(K::pascals, (&model@.kinetics, torr), pressure), call_ensures(K::cascade_theory, (&model@.kinetics, pressure, p.wavelength), intensity), call_ensures(K::per_square_centimetre, (&model@.kinetics, intensity), shown)]
            is_case_model(k, p.wavelength, Ok(model)) && call_ensures(
                K::pascals,
                (&model@.kinetics, torr),
                pressure,
            ) && call_ensures(
                K::cascade_theory,
                (&model@.kinetics, pressure, p.wavelength),
                intensity,
            ) && call_ensures(K::per_square_centimetre, (&model@.kinetics, intensity), shown)
                ==> worth(shown) == theory(worth(torr)),
        0 <= i < run.pressure_torr@.len(),
    ensures
        run.cascade_theory@.len() == run.pressure_torr@.len(),
        worth(run.cascade_theory@[i]) == theory(worth(run.pressure_torr@[i])),
{
    let (model, flat, steep, c) = lemma_reported(k, fit, p, run);
    let torr = c.central[i].0;
    assert(run.pressure_torr@[i] == torr);
    assert(is_theory_at(model@.kinetics, p.wavelength, torr, run.cascade_theory@[i]));
}

/// A run is driven at a multiple of the threshold at its highest pressure.
pub proof fn law_drive_is_a_multiple_of_the_last_threshold<
    K: BreakdownCase,
    F: Fitting<Real = K::Real>,
>(
    k: K,
    fit: F,
    p: BreakdownParams<K::Real>,
    run: BreakdownRun<K::Real>,
    worth: spec_fn(K::Real) -> real,
    unit: real,
)
    requires
        is_breakdown_run(k, fit, p, Ok(run)),
        forall|model: AirBreakdown<K>| #[trigger]
            is_case_model(k, p.wavelength, Ok(model)) ==> {
                &&& forall|a: K::Real, b: K::Real, c: K::Real| #[trigger]
                    call_ensures(K::times, (&model@.kinetics, a, b), c) ==> worth(c) == worth(a)
                        * worth(b)
                &&& forall|a: K::Real, b: K::Real| #[trigger]
                    call_ensures(K::per_square_centimetre, (&model@.kinetics, a), b) ==> worth(b)
                        == worth(a) * unit
            },
    ensures
        run.threshold@.len() > 0,
        worth(run.drive_intensity) == worth(p.drive) * worth(run.threshold@.last()),
{
    let (model, flat, steep, c) = lemma_reported(k, fit, p, run);
    let m = model@;
    let (drive, dt) = choose|drive: K::Real, dt: K::Real| #[trigger]
        is_driven(m, p, c, drive, dt, run);
    let last = c.central.len() - 1;
    assert(are_shown(m.kinetics, c.central, run.threshold@));
    assert(call_ensures(
        K::per_square_centimetre,
        (&m.kinetics, c.central[last].1),
        run.threshold@[last],
    ));
    lemma_associates(worth(p.drive), worth(c.central[last].1), unit);
}

/// The times of a run's traces increase, where those of their slices do.
pub proof fn law_trace_times_increase<K: BreakdownCase, F: Fitting<Real = K::Real>>(
    k: K,
    fit: F,
    p: BreakdownParams<K::Real>,
    run: BreakdownRun<K::Real>,
    worth: spec_fn(K::Real) -> real,
    s: int,
    t: int,
)
    requires
        is_breakdown_run(k, fit, p, Ok(run)),
        forall|model: AirBreakdown<K>, dt: K::Real, s: usize, t: usize, a: K::Real, b: K::Real|
            #![trigger is_case_model(k, p.wavelength, Ok(model)), call_ensures(K::trace_time, (&model@.kinetics, p.fwhm, dt, s), a), call_ensures(K::trace_time, (&model@.kinetics, p.fwhm, dt, t), b)]
            is_case_model(k, p.wavelength, Ok(model)) && call_ensures(
                K::trace_step,
                (&model@.kinetics, p.fwhm, p.steps),
                dt,
            ) && s < t < p.steps && call_ensures(
                K::trace_time,
                (&model@.kinetics, p.fwhm, dt, s),
                a,
            ) && call_ensures(K::trace_time, (&model@.kinetics, p.fwhm, dt, t), b) ==> worth(a)
                < worth(b),
        0 <= s < t < p.steps,
    ensures
        run.trace_time@.len() == p.steps,
        worth(run.trace_time@[s]) < worth(run.trace_time@[t]),
{
    let (model, flat, steep, c) = lemma_reported(k, fit, p, run);
    let m = model@;
    let (drive, dt) = choose|drive: K::Real, dt: K::Real| #[trigger]
        is_driven(m, p, c, drive, dt, run);
    assert(call_ensures(
        K::trace_time,
        (&m.kinetics, p.fwhm, dt, s as usize),
        run.trace_time@[s],
    ));
    assert(call_ensures(
        K::trace_time,
        (&m.kinetics, p.fwhm, dt, t as usize),
        run.trace_time@[t],
    ));
}

} // verus!

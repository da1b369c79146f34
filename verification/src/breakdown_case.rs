//! The breakdown threshold of a gas against its pressure, and the avalanche of
//! electrons at one fixed intensity.
use crate::breakdown0d::{
    is_model, AirBreakdown, BreakdownError, Focus, Gas, Kinetics, Model, Rates,
};
use crate::ionization::{
    is_exact, law_density_is_bounded_by_the_neutrals, lemma_one_neutral, lemma_rates_are_balanced,
    Exact,
};
use crate::plane::Plane;
use crate::validate::{is_loglog_slope, loglog_slope, Fitting};
use vstd::prelude::*;

verus! {

/// A sweep of pressures.
#[derive(Debug, Clone, Copy)]
pub struct BreakdownParams<R> {
    pub wavelength: R,
    /// Pulse width at half maximum.
    pub fwhm: R,
    pub p_min_torr: R,
    pub p_max_torr: R,
    /// Number of pressures.
    pub points: usize,
    /// Time steps of a pulse.
    pub steps: usize,
    /// Intensity of the traces over the threshold at the highest pressure.
    pub drive: R,
}

/// The result of a sweep. Intensities are per square centimetre.
#[derive(Debug)]
pub struct BreakdownRun<R> {
    pub pressure_torr: Vec<R>,
    pub threshold: Vec<R>,
    /// Thresholds under the large inelastic loss.
    pub threshold_lo_slope: Vec<R>,
    /// Thresholds under the small inelastic loss.
    pub threshold_hi_slope: Vec<R>,
    /// Exponent of the fall of the threshold with pressure.
    pub slope: R,
    /// The exponent under the large and under the small inelastic loss.
    pub slope_envelope: (R, R),
    pub drive_intensity: R,
    /// Electron density, pressures down the rows and times across the columns.
    pub ne_traces: Plane<R>,
    pub trace_time: Vec<R>,
    /// Electron density that counts as breakdown.
    pub n_bd: R,
    /// Where the trace at each pressure starts.
    pub n_seed: Vec<R>,
    pub neutral_density: Vec<R>,
    /// Closed-form cascade threshold at each pressure.
    pub cascade_theory: Vec<R>,
}

/// Why a sweep has no result.
#[derive(Debug, Clone, Copy, PartialEq)]
pub enum BreakdownCaseError<R> {
    /// The pressures are not positive and increasing.
    BadPressures,
    /// Fewer than two pressures.
    TooFewPoints,
    Model(BreakdownError<R>),
    Threshold(BreakdownError<R>),
    SlopeFit,
    FlatEdgeFit,
    SteepEdgeFit,
}

/// What a model is built from.
#[derive(Debug, Clone, Copy)]
pub struct Setup<R> {
    pub wavelength: R,
    pub gas: Gas<R>,
    pub focus: Focus<R>,
    pub temperature: R,
}

/// The formulas of a sweep.
pub trait BreakdownCase: Kinetics {
    /// Whether a wavelength is that of the reference experiment.
    fn is_reference(&self, wavelength: Self::Real) -> bool;

    fn reference_setup(&self) -> Setup<Self::Real>;

    /// The focal region of the reference experiment at another wavelength.
    fn retuned_setup(&self, wavelength: Self::Real) -> Setup<Self::Real>;

    /// Pressure `i` of `points`, from the lowest to the highest.
    fn sweep_pressure(
        &self,
        p_min: Self::Real,
        p_max: Self::Real,
        i: usize,
        points: usize,
    ) -> Self::Real;

    fn pascals(&self, torr: Self::Real) -> Self::Real;

    /// The largest inelastic loss in the literature: the fraction and the mean
    /// energy in electron volts.
    fn large_loss(&self) -> (Self::Real, Self::Real);

    /// The smallest inelastic loss in the literature.
    fn small_loss(&self) -> (Self::Real, Self::Real);

    fn per_square_centimetre(&self, intensity: Self::Real) -> Self::Real;

    /// Time step of a trace.
    fn trace_step(&self, fwhm: Self::Real, steps: usize) -> Self::Real;

    /// Middle of a time step, counted from the peak of the pulse.
    fn trace_time(&self, fwhm: Self::Real, dt: Self::Real, step: usize) -> Self::Real;

    /// Intensity of a pulse at a time from its peak.
    fn trace_intensity(&self, peak: Self::Real, fwhm: Self::Real, t: Self::Real) -> Self::Real;

    /// Closed-form cascade threshold.
    fn cascade_theory(&self, pressure: Self::Real, wavelength: Self::Real) -> Self::Real;
}

/// `s` is the setup for a wavelength.
pub open spec fn is_setup<K: BreakdownCase>(k: K, wavelength: K::Real, s: Setup<K::Real>) -> bool {
    ||| call_ensures(K::is_reference, (&k, wavelength), true) && call_ensures(
        K::reference_setup,
        (&k,),
        s,
    )
    ||| call_ensures(K::is_reference, (&k, wavelength), false) && call_ensures(
        K::retuned_setup,
        (&k, wavelength),
        s,
    )
}

/// What building the model of a wavelength may return.
pub open spec fn is_case_model<K: BreakdownCase>(
    k: K,
    wavelength: K::Real,
    r: Result<AirBreakdown<K>, BreakdownError<K::Real>>,
) -> bool {
    exists|s: Setup<K::Real>| #[trigger]
        is_setup(k, wavelength, s) && is_model(k, s.wavelength, s.gas, s.focus, s.temperature, r)
}

/// The model of a wavelength.
pub fn case_model<K: BreakdownCase + Copy>(k: &K, wavelength: K::Real) -> (r: Result<
    AirBreakdown<K>,
    BreakdownError<K::Real>,
>)
    ensures
        is_case_model(*k, wavelength, r),
{
    let s: Setup<K::Real> = if k.is_reference(wavelength) {
        k.reference_setup()
    } else {
        k.retuned_setup(wavelength)
    };
    proof {
        assert(is_setup(*k, wavelength, s));
    }
    AirBreakdown::new(*k, s.wavelength, s.gas, s.focus, s.temperature)
}

/// At pressure `i` of a sweep, `torr`, the threshold search came to `r`.
pub open spec fn is_curve_point<K: BreakdownCase>(
    m: Model<K>,
    p: BreakdownParams<K::Real>,
    i: int,
    torr: K::Real,
    r: Result<K::Real, BreakdownError<K::Real>>,
) -> bool {
    exists|pressure: K::Real|
        {
            &&& call_ensures(
                K::sweep_pressure,
                (&m.kinetics, p.p_min_torr, p.p_max_torr, i as usize, p.points),
                torr,
            )
            &&& #[trigger] call_ensures(K::pascals, (&m.kinetics, torr), pressure)
            &&& m.is_threshold(p.fwhm, pressure, p.steps, r)
        }
}

/// The first `curve.len()` pressures of a sweep with their thresholds.
pub open spec fn is_curve<K: BreakdownCase>(
    m: Model<K>,
    p: BreakdownParams<K::Real>,
    curve: Seq<(K::Real, K::Real)>,
) -> bool {
    forall|i: int|
        0 <= i < curve.len() ==> is_curve_point(
            m,
            p,
            i,
            (#[trigger] curve[i]).0,
            Ok(curve[i].1),
        )
}

/// A sweep that ends at a pressure without a threshold, the first such.
pub open spec fn is_curve_cut<K: BreakdownCase>(
    m: Model<K>,
    p: BreakdownParams<K::Real>,
    curve: Seq<(K::Real, K::Real)>,
    torr: K::Real,
    e: BreakdownError<K::Real>,
) -> bool {
    &&& curve.len() < p.points
    &&& is_curve(m, p, curve)
    &&& is_curve_point(m, p, curve.len() as int, torr, Err(e))
}

/// What the sweep of a model may return.
pub open spec fn is_curve_result<K: BreakdownCase>(
    m: Model<K>,
    p: BreakdownParams<K::Real>,
    r: Result<Seq<(K::Real, K::Real)>, BreakdownError<K::Real>>,
) -> bool {
    match r {
        Ok(curve) => curve.len() == p.points && is_curve(m, p, curve),
        Err(e) => exists|curve: Seq<(K::Real, K::Real)>, torr: K::Real| #[trigger]
            is_curve_cut(m, p, curve, torr, e),
    }
}

/// The threshold of a model at each pressure, or the first failure.
pub fn threshold_curve<K: BreakdownCase>(
    model: &AirBreakdown<K>,
    p: &BreakdownParams<K::Real>,
) -> (r: Result<Vec<(K::Real, K::Real)>, BreakdownError<K::Real>>)
    ensures
        match r {
            Ok(curve) => is_curve_result(model@, *p, Ok(curve@)),
            Err(e) => is_curve_result(model@, *p, Err(e)),
        },
{
    let k: &K = model.kinetics();
    let n: usize = p.points;
    let mut curve: Vec<(K::Real, K::Real)> = Vec::new();
    for i in 0..n
        invariant
            *k == model@.kinetics,
            n == p.points,
            curve@.len() == i,
            is_curve(model@, *p, curve@),
    {
        let torr: K::Real = k.sweep_pressure(p.p_min_torr, p.p_max_torr, i, p.points);
        let pressure: K::Real = k.pascals(torr);
        let found: Result<K::Real, BreakdownError<K::Real>> = model.threshold_intensity(
            p.fwhm,
            pressure,
            p.steps,
        );
        proof {
            assert(call_ensures(K::pascals, (k, torr), pressure));
            assert(is_curve_point(model@, *p, i as int, torr, found));
        }
        match found {
            Ok(t) => {
                let ghost shorter = curve@;
                curve.push((torr, t));
                proof {
                    assert forall|j: int| 0 <= j < curve@.len() implies is_curve_point(
                        model@,
                        *p,
                        j,
                        (#[trigger] curve@[j]).0,
                        Ok(curve@[j].1),
                    ) by {
                        if j < i {
                            assert(curve@[j] == shorter[j]);
                        }
                    }
                }
            },
            Err(e) => {
                proof {
                    assert(is_curve_cut(model@, *p, curve@, torr, e));
                }
                return Err(e);
            },
        }
    }
    Ok(curve)
}

/// The exponent of a fall: the slope of a curve in logarithms, negated.
pub open spec fn is_fall<K: Kinetics, F: Fitting<Real = K::Real>>(
    k: K,
    fit: F,
    curve: Seq<(K::Real, K::Real)>,
    r: Option<K::Real>,
) -> bool {
    match r {
        None => is_loglog_slope(fit, curve, None),
        Some(n) => exists|slope: K::Real| #[trigger]
            is_loglog_slope(fit, curve, Some(slope)) && call_ensures(K::negate, (&k, slope), n),
    }
}

/// A curve has an exponent.
pub open spec fn is_fitted<K: Kinetics, F: Fitting<Real = K::Real>>(
    k: K,
    fit: F,
    curve: Seq<(K::Real, K::Real)>,
) -> bool {
    exists|n: K::Real| #[trigger] is_fall(k, fit, curve, Some(n))
}

fn fall_of<K: Kinetics, F: Fitting<Real = K::Real>>(
    k: &K,
    fit: &F,
    curve: &[(K::Real, K::Real)],
) -> (r: Option<K::Real>)
    ensures
        is_fall(*k, *fit, curve@, r),
{
    let fitted: Option<K::Real> = loglog_slope(fit, curve);
    match fitted {
        None => None,
        Some(slope) => {
            let n: K::Real = k.negate(slope);
            proof {
                assert(is_loglog_slope(*fit, curve@, Some(slope)));
                assert(call_ensures(K::negate, (k, slope), n));
            }
            Some(n)
        },
    }
}

/// Step `s` of a trace at one pressure: the density grows from the one before,
/// and stays no less than where the trace started.
pub open spec fn is_trace_leg<K: BreakdownCase>(
    m: Model<K>,
    p: BreakdownParams<K::Real>,
    drive: K::Real,
    dt: K::Real,
    pressure: K::Real,
    times: Seq<K::Real>,
    run: Seq<K::Real>,
    s: int,
) -> bool {
    exists|intensity: K::Real, free: K::Real|
        {
            &&& #[trigger] call_ensures(
                K::trace_intensity,
                (&m.kinetics, drive, p.fwhm, times[s]),
                intensity,
            )
            &&& #[trigger] m.is_advanced(run[s], intensity, pressure, dt, free)
            &&& call_ensures(K::larger, (&m.kinetics, free, run[0]), run[s + 1])
        }
}

/// `run` are the densities at one pressure, from the seed.
pub open spec fn is_trace_run<K: BreakdownCase>(
    m: Model<K>,
    p: BreakdownParams<K::Real>,
    drive: K::Real,
    dt: K::Real,
    pressure: K::Real,
    times: Seq<K::Real>,
    run: Seq<K::Real>,
) -> bool {
    &&& 0 < run.len() <= times.len() + 1
    &&& m.is_seed(pressure, run[0])
    &&& forall|s: int|
        0 <= s < run.len() - 1 ==> #[trigger] is_trace_leg(
            m,
            p,
            drive,
            dt,
            pressure,
            times,
            run,
            s,
        )
}

/// `row` is the trace at a pressure in torr, and `seed` where it started.
pub open spec fn is_trace<K: BreakdownCase>(
    m: Model<K>,
    p: BreakdownParams<K::Real>,
    drive: K::Real,
    dt: K::Real,
    torr: K::Real,
    times: Seq<K::Real>,
    seed: K::Real,
    row: Seq<K::Real>,
) -> bool {
    exists|pressure: K::Real|
        {
            &&& #[trigger] call_ensures(K::pascals, (&m.kinetics, torr), pressure)
            &&& is_trace_run(m, p, drive, dt, pressure, times, seq![seed] + row)
            &&& row.len() == times.len()
        }
}

/// The trace at one pressure, and where it starts.
fn trace_at<K: BreakdownCase>(
    model: &AirBreakdown<K>,
    p: &BreakdownParams<K::Real>,
    drive: K::Real,
    dt: K::Real,
    torr: K::Real,
    times: &[K::Real],
) -> (r: (K::Real, Vec<K::Real>))
    requires
        times@.len() < usize::MAX,
    ensures
        is_trace(model@, *p, drive, dt, torr, times@, r.0, r.1@),
{
    let k: &K = model.kinetics();
    let pressure: K::Real = k.pascals(torr);
    let seed: K::Real = model.seed_density(pressure);
    let mut n_e: K::Real = seed;
    let mut row: Vec<K::Real> = Vec::new();
    proof {
        assert((seq![seed] + row@) =~= seq![seed]);
    }
    for s in 0..times.len()
        invariant
            *k == model@.kinetics,
            row@.len() == s,
            n_e == (seq![seed] + row@).last(),
            is_trace_run(model@, *p, drive, dt, pressure, times@, seq![seed] + row@),
    {
        let intensity: K::Real = k.trace_intensity(drive, p.fwhm, times[s]);
        let free: K::Real = model.advance(n_e, intensity, pressure, dt);
        let next: K::Real = k.larger(free, seed);
        let ghost before = seq![seed] + row@;
        row.push(next);
        proof {
            let after = seq![seed] + row@;
            assert(after =~= before.push(next));
            assert(model@.is_advanced(before[s as int], intensity, pressure, dt, free));
            assert forall|l: int| 0 <= l < after.len() - 1 implies #[trigger] is_trace_leg(
                model@,
                *p,
                drive,
                dt,
                pressure,
                times@,
                after,
                l,
            ) by {
                assert(after[l] == before[l]);
                if l < s {
                    assert(is_trace_leg(model@, *p, drive, dt, pressure, times@, before, l));
                    assert(after[l + 1] == before[l + 1]);
                } else {
                    assert(model@.is_advanced(after[l], intensity, pressure, dt, free));
                }
            }
        }
        n_e = next;
    }
    proof {
        assert(call_ensures(K::pascals, (k, torr), pressure));
    }
    (seed, row)
}

/// `times` are the middles of the steps of a trace.
pub open spec fn are_times<K: BreakdownCase>(
    k: K,
    p: BreakdownParams<K::Real>,
    dt: K::Real,
    times: Seq<K::Real>,
) -> bool {
    &&& call_ensures(K::trace_step, (&k, p.fwhm, p.steps), dt)
    &&& times.len() == p.steps
    &&& forall|s: int|
        0 <= s < times.len() ==> call_ensures(
            K::trace_time,
            (&k, p.fwhm, dt, s as usize),
            #[trigger] times[s],
        )
}

/// Every trace of a sweep.
pub open spec fn are_traces<K: BreakdownCase>(
    m: Model<K>,
    p: BreakdownParams<K::Real>,
    drive: K::Real,
    dt: K::Real,
    curve: Seq<(K::Real, K::Real)>,
    times: Seq<K::Real>,
    seeds: Seq<K::Real>,
    rows: Seq<Seq<K::Real>>,
) -> bool {
    &&& seeds.len() == curve.len() == rows.len()
    &&& forall|i: int|
        #![trigger rows[i]]
        0 <= i < curve.len() ==> is_trace(m, p, drive, dt, curve[i].0, times, seeds[i], rows[i])
}

/// The thresholds of a curve per square centimetre.
pub open spec fn are_shown<K: BreakdownCase>(
    k: K,
    curve: Seq<(K::Real, K::Real)>,
    shown: Seq<K::Real>,
) -> bool {
    &&& shown.len() == curve.len()
    &&& forall|i: int|
        0 <= i < curve.len() ==> call_ensures(
            K::per_square_centimetre,
            (&k, curve[i].1),
            #[trigger] shown[i],
        )
}

/// The neutral density at a pressure in torr.
pub open spec fn is_neutral_at<K: BreakdownCase>(m: Model<K>, torr: K::Real, n: K::Real) -> bool {
    exists|pressure: K::Real| #[trigger]
        call_ensures(K::pascals, (&m.kinetics, torr), pressure) && m.is_neutral(pressure, n)
}

/// The closed-form threshold at a pressure in torr, per square centimetre.
pub open spec fn is_theory_at<K: BreakdownCase>(
    k: K,
    wavelength: K::Real,
    torr: K::Real,
    shown: K::Real,
) -> bool {
    exists|pressure: K::Real, intensity: K::Real|
        {
            &&& #[trigger] call_ensures(K::pascals, (&k, torr), pressure)
            &&& #[trigger] call_ensures(K::cascade_theory, (&k, pressure, wavelength), intensity)
            &&& call_ensures(K::per_square_centimetre, (&k, intensity), shown)
        }
}

/// The three curves of a sweep: the model's own, and those of the two extremes
/// of the inelastic loss.
pub struct Curves<R> {
    pub central: Seq<(R, R)>,
    pub flat: Seq<(R, R)>,
    pub steep: Seq<(R, R)>,
}

/// `edge` is a model with another inelastic loss.
pub open spec fn is_edge<K: BreakdownCase>(
    m: Model<K>,
    loss: (K::Real, K::Real),
    edge: Model<K>,
) -> bool {
    &&& edge == (Model { gas: edge.gas, ..m })
    &&& edge.gas == (Gas { delta_eff: loss.0, mean_energy: edge.gas.mean_energy, ..m.gas })
    &&& call_ensures(K::electron_volts, (&m.kinetics, loss.1), edge.gas.mean_energy)
}

/// `edge` is the model with the largest inelastic loss.
pub open spec fn is_flat_edge<K: BreakdownCase>(m: Model<K>, edge: Model<K>) -> bool {
    exists|loss: (K::Real, K::Real)| #[trigger]
        call_ensures(K::large_loss, (&m.kinetics,), loss) && is_edge(m, loss, edge)
}

/// `edge` is the model with the smallest inelastic loss.
pub open spec fn is_steep_edge<K: BreakdownCase>(m: Model<K>, edge: Model<K>) -> bool {
    exists|loss: (K::Real, K::Real)| #[trigger]
        call_ensures(K::small_loss, (&m.kinetics,), loss) && is_edge(m, loss, edge)
}

/// The curves of a model and its two extremes.
pub open spec fn are_curves<K: BreakdownCase>(
    m: Model<K>,
    flat: Model<K>,
    steep: Model<K>,
    p: BreakdownParams<K::Real>,
    c: Curves<K::Real>,
) -> bool {
    &&& is_flat_edge(m, flat)
    &&& is_steep_edge(m, steep)
    &&& is_curve_result(m, p, Ok(c.central))
    &&& is_curve_result(flat, p, Ok(c.flat))
    &&& is_curve_result(steep, p, Ok(c.steep))
}

/// What a run reports of its curves.
pub open spec fn is_reported<K: BreakdownCase, F: Fitting<Real = K::Real>>(
    m: Model<K>,
    fit: F,
    p: BreakdownParams<K::Real>,
    c: Curves<K::Real>,
    run: BreakdownRun<K::Real>,
) -> bool {
    let k = m.kinetics;
    &&& run.pressure_torr@ == c.central.map_values(|v: (K::Real, K::Real)| v.0)
    &&& are_shown(k, c.central, run.threshold@)
    &&& are_shown(k, c.flat, run.threshold_lo_slope@)
    &&& are_shown(k, c.steep, run.threshold_hi_slope@)
    &&& is_fall(k, fit, c.central, Some(run.slope))
    &&& is_fall(k, fit, c.flat, Some(run.slope_envelope.0))
    &&& is_fall(k, fit, c.steep, Some(run.slope_envelope.1))
    &&& run.ne_traces.wf()
    &&& run.ne_traces.spec_width() == p.steps
    &&& run.n_bd == m.criterion
    &&& run.neutral_density@.len() == c.central.len()
    &&& forall|i: int|
        0 <= i < c.central.len() ==> is_neutral_at(
            m,
            c.central[i].0,
            #[trigger] run.neutral_density@[i],
        )
    &&& run.cascade_theory@.len() == c.central.len()
    &&& forall|i: int|
        0 <= i < c.central.len() ==> is_theory_at(
            k,
            p.wavelength,
            c.central[i].0,
            #[trigger] run.cascade_theory@[i],
        )
    &&& exists|drive: K::Real, dt: K::Real| #[trigger] is_driven(m, p, c, drive, dt, run)
}

/// The traces of a run are driven at a multiple of the threshold at the highest
/// pressure.
pub open spec fn is_driven<K: BreakdownCase>(
    m: Model<K>,
    p: BreakdownParams<K::Real>,
    c: Curves<K::Real>,
    drive: K::Real,
    dt: K::Real,
    run: BreakdownRun<K::Real>,
) -> bool {
    let k = m.kinetics;
    &&& call_ensures(K::times, (&k, p.drive, c.central.last().1), drive)
    &&& call_ensures(K::per_square_centimetre, (&k, drive), run.drive_intensity)
    &&& are_times(k, p, dt, run.trace_time@)
    &&& are_traces(
        m,
        p,
        drive,
        dt,
        c.central,
        run.trace_time@,
        run.n_seed@,
        run.ne_traces@,
    )
}

/// What a model may come to.
pub open spec fn is_swept<K: BreakdownCase, F: Fitting<Real = K::Real>>(
    m: Model<K>,
    fit: F,
    p: BreakdownParams<K::Real>,
    r: Result<BreakdownRun<K::Real>, BreakdownCaseError<K::Real>>,
) -> bool {
    match r {
        Ok(run) => exists|flat: Model<K>, steep: Model<K>, c: Curves<K::Real>| #[trigger]
            are_curves(m, flat, steep, p, c) && is_reported(m, fit, p, c, run),
        Err(BreakdownCaseError::Threshold(e)) => {
            ||| is_curve_result(m, p, Err(e))
            ||| exists|central: Seq<(K::Real, K::Real)>, flat: Model<K>| #[trigger]
                is_flat_failure(m, p, central, flat, e)
            ||| exists|
                central: Seq<(K::Real, K::Real)>,
                flat: Model<K>,
                below: Seq<(K::Real, K::Real)>,
                steep: Model<K>,
            | #[trigger]
                is_steep_failure(m, p, central, flat, below, steep, e)
        },
        Err(BreakdownCaseError::SlopeFit) => exists|
            flat: Model<K>,
            steep: Model<K>,
            c: Curves<K::Real>,
        | #[trigger]
            are_curves(m, flat, steep, p, c) && is_fall(m.kinetics, fit, c.central, None),
        Err(BreakdownCaseError::FlatEdgeFit) => exists|
            flat: Model<K>,
            steep: Model<K>,
            c: Curves<K::Real>,
        | #[trigger]
            are_curves(m, flat, steep, p, c) && is_fitted(m.kinetics, fit, c.central) && is_fall(
                m.kinetics,
                fit,
                c.flat,
                None,
            ),
        Err(BreakdownCaseError::SteepEdgeFit) => exists|
            flat: Model<K>,
            steep: Model<K>,
            c: Curves<K::Real>,
        | #[trigger]
            are_curves(m, flat, steep, p, c) && is_fitted(m.kinetics, fit, c.central)
                && is_fitted(m.kinetics, fit, c.flat) && is_fall(m.kinetics, fit, c.steep, None),
        Err(_) => false,
    }
}

/// The model's own curve is found, and that of the largest loss is not.
pub open spec fn is_flat_failure<K: BreakdownCase>(
    m: Model<K>,
    p: BreakdownParams<K::Real>,
    central: Seq<(K::Real, K::Real)>,
    flat: Model<K>,
    e: BreakdownError<K::Real>,
) -> bool {
    &&& is_curve_result(m, p, Ok(central))
    &&& is_flat_edge(m, flat)
    &&& is_curve_result(flat, p, Err(e))
}

/// Two curves are found, and that of the smallest loss is not.
pub open spec fn is_steep_failure<K: BreakdownCase>(
    m: Model<K>,
    p: BreakdownParams<K::Real>,
    central: Seq<(K::Real, K::Real)>,
    flat: Model<K>,
    below: Seq<(K::Real, K::Real)>,
    steep: Model<K>,
    e: BreakdownError<K::Real>,
) -> bool {
    &&& is_curve_result(m, p, Ok(central))
    &&& is_flat_edge(m, flat)
    &&& is_curve_result(flat, p, Ok(below))
    &&& is_steep_edge(m, steep)
    &&& is_curve_result(steep, p, Err(e))
}

/// The pressures of a sweep are positive and increasing.
pub open spec fn are_pressures_judged<K: Kinetics>(
    k: K,
    p: BreakdownParams<K::Real>,
    good: bool,
) -> bool {
    if good {
        &&& call_ensures(K::is_positive, (&k, p.p_min_torr), true)
        &&& call_ensures(K::exceeds, (&k, p.p_max_torr, p.p_min_torr), true)
    } else {
        ||| call_ensures(K::is_positive, (&k, p.p_min_torr), false)
        ||| call_ensures(K::exceeds, (&k, p.p_max_torr, p.p_min_torr), false)
    }
}

/// What [`run_breakdown`] may return: the checks in order, then the sweep.
pub open spec fn is_breakdown_run<K: BreakdownCase, F: Fitting<Real = K::Real>>(
    k: K,
    fit: F,
    p: BreakdownParams<K::Real>,
    r: Result<BreakdownRun<K::Real>, BreakdownCaseError<K::Real>>,
) -> bool {
    match r {
        Err(BreakdownCaseError::BadPressures) => are_pressures_judged(k, p, false),
        Err(BreakdownCaseError::TooFewPoints) => are_pressures_judged(k, p, true) && p.points < 2,
        Err(BreakdownCaseError::Model(e)) => {
            &&& are_pressures_judged(k, p, true)
            &&& p.points >= 2
            &&& is_case_model(k, p.wavelength, Err(e))
        },
        _ => {
            &&& are_pressures_judged(k, p, true)
            &&& p.points >= 2
            &&& exists|model: AirBreakdown<K>| #[trigger]
                is_case_model(k, p.wavelength, Ok(model)) && is_swept(model@, fit, p, r)
        },
    }
}

fn shown<K: BreakdownCase>(k: &K, curve: &[(K::Real, K::Real)]) -> (out: Vec<K::Real>)
    ensures
        are_shown(*k, curve@, out@),
{
    let mut out: Vec<K::Real> = Vec::with_capacity(curve.len());
    for i in 0..curve.len()
        invariant
            out@.len() == i,
            forall|j: int|
                0 <= j < i ==> call_ensures(
                    K::per_square_centimetre,
                    (k, curve@[j].1),
                    #[trigger] out@[j],
                ),
    {
        out.push(k.per_square_centimetre(curve[i].1));
    }
    out
}

/// Everything that a run shows at each of its pressures.
struct Columns<R> {
    torr: Vec<R>,
    seeds: Vec<R>,
    rows: Vec<Vec<R>>,
    neutral: Vec<R>,
    theory: Vec<R>,
}

spec fn are_columns<K: BreakdownCase>(
    m: Model<K>,
    p: BreakdownParams<K::Real>,
    drive: K::Real,
    dt: K::Real,
    curve: Seq<(K::Real, K::Real)>,
    times: Seq<K::Real>,
    c: Columns<K::Real>,
) -> bool {
    &&& c.torr@ == curve.map_values(|v: (K::Real, K::Real)| v.0)
    &&& c.seeds@.len() == curve.len()
    &&& c.rows@.len() == curve.len()
    &&& forall|i: int|
        #![trigger c.rows@[i]]
        0 <= i < curve.len() ==> is_trace(
            m,
            p,
            drive,
            dt,
            curve[i].0,
            times,
            c.seeds@[i],
            c.rows@[i]@,
        )
    &&& c.neutral@.len() == curve.len()
    &&& forall|i: int|
        0 <= i < curve.len() ==> is_neutral_at(m, curve[i].0, #[trigger] c.neutral@[i])
    &&& c.theory@.len() == curve.len()
    &&& forall|i: int|
        0 <= i < curve.len() ==> is_theory_at(
            m.kinetics,
            p.wavelength,
            curve[i].0,
            #[trigger] c.theory@[i],
        )
}

fn columns<K: BreakdownCase>(
    model: &AirBreakdown<K>,
    p: &BreakdownParams<K::Real>,
    drive: K::Real,
    dt: K::Real,
    curve: &[(K::Real, K::Real)],
    times: &[K::Real],
) -> (c: Columns<K::Real>)
    requires
        times@.len() < usize::MAX,
    ensures
        are_columns(model@, *p, drive, dt, curve@, times@, c),
{
    let k: &K = model.kinetics();
    let mut c: Columns<K::Real> = Columns {
        torr: Vec::new(),
        seeds: Vec::new(),
        rows: Vec::new(),
        neutral: Vec::new(),
        theory: Vec::new(),
    };
    proof {
        assert(curve@.subrange(0, 0).map_values(|v: (K::Real, K::Real)| v.0) =~= Seq::empty());
    }
    for i in 0..curve.len()
        invariant
            *k == model@.kinetics,
            times@.len() < usize::MAX,
            are_columns(model@, *p, drive, dt, curve@.subrange(0, i as int), times@, c),
    {
        let torr: K::Real = curve[i].0;
        let ghost shorter = curve@.subrange(0, i as int);
        let ghost longer = curve@.subrange(0, i + 1);
        let ghost before = c;
        let (seed, row): (K::Real, Vec<K::Real>) = trace_at(model, p, drive, dt, torr, times);
        let pressure: K::Real = k.pascals(torr);
        let neutral: K::Real = model.neutral_density(pressure);
        let theory: K::Real = k.cascade_theory(pressure, p.wavelength);
        let theory_shown: K::Real = k.per_square_centimetre(theory);
        proof {
            assert(call_ensures(K::pascals, (k, torr), pressure));
            assert(call_ensures(K::cascade_theory, (k, pressure, p.wavelength), theory));
            assert(is_neutral_at(model@, torr, neutral));
            assert(is_theory_at(*k, p.wavelength, torr, theory_shown));
        }
        c.torr.push(torr);
        c.seeds.push(seed);
        c.rows.push(row);
        c.neutral.push(neutral);
        c.theory.push(theory_shown);
        proof {
            assert(longer =~= shorter.push(curve@[i as int]));
            assert(c.torr@ =~= longer.map_values(|v: (K::Real, K::Real)| v.0));
            assert forall|j: int|
                #![trigger c.rows@[j]]
                0 <= j < longer.len() implies is_trace(
                model@,
                *p,
                drive,
                dt,
                longer[j].0,
                times@,
                c.seeds@[j],
                c.rows@[j]@,
            ) by {
                if j < i {
                    assert(before.rows@[j] == c.rows@[j]);
                }
            }
            assert forall|j: int| 0 <= j < longer.len() implies is_neutral_at(
                model@,
                longer[j].0,
                #[trigger] c.neutral@[j],
            ) by {
                if j < i {
                    assert(before.neutral@[j] == c.neutral@[j]);
                }
            }
            assert forall|j: int| 0 <= j < longer.len() implies is_theory_at(
                model@.kinetics,
                p.wavelength,
                longer[j].0,
                #[trigger] c.theory@[j],
            ) by {
                if j < i {
                    assert(before.theory@[j] == c.theory@[j]);
                }
            }
        }
    }
    proof {
        assert(curve@.subrange(0, curve@.len() as int) =~= curve@);
    }
    c
}

/// Middles of the steps of a trace.
fn trace_times<K: BreakdownCase>(k: &K, p: &BreakdownParams<K::Real>, dt: K::Real) -> (times: Vec<
    K::Real,
>)
    requires
        call_ensures(K::trace_step, (k, p.fwhm, p.steps), dt),
    ensures
        are_times(*k, *p, dt, times@),
{
    let n: usize = p.steps;
    let mut times: Vec<K::Real> = Vec::with_capacity(n);
    for s in 0..n
        invariant
            n == p.steps,
            times@.len() == s,
            forall|l: int|
                0 <= l < s ==> call_ensures(
                    K::trace_time,
                    (k, p.fwhm, dt, l as usize),
                    #[trigger] times@[l],
                ),
    {
        times.push(k.trace_time(p.fwhm, dt, s));
    }
    times
}

/// The traces of a sweep as one array.
fn as_rows<R: Copy>(rows: &[Vec<R>], width: usize) -> (a: Plane<R>)
    requires
        forall|i: int| 0 <= i < rows@.len() ==> (#[trigger] rows@[i])@.len() == width,
        rows@.len() * width <= usize::MAX,
    ensures
        a.wf(),
        a@.len() == rows@.len(),
        a.spec_width() == width,
        forall|i: int| 0 <= i < rows@.len() ==> #[trigger] a@[i] == rows@[i]@,
{
    let pick = |i: usize, s: usize| -> (v: R)
        requires
            i < rows@.len(),
            s < rows@[i as int]@.len(),
        ensures
            v == rows@[i as int]@[s as int],
        { rows[i][s] };
    let a: Plane<R> = Plane::from_fn(rows.len(), width, pick);
    proof {
        assert forall|i: int| 0 <= i < rows@.len() implies #[trigger] a@[i] == rows@[i]@ by {
            assert forall|s: int| 0 <= s < width implies #[trigger] a@[i][s] == rows@[i]@[s] by {}
            assert(a@[i] =~= rows@[i]@);
        }
    }
    a
}

/// Sweep a model over pressures and follow its electrons at one intensity.
pub fn sweep_model<K: BreakdownCase + Copy, F: Fitting<Real = K::Real>>(
    model: &AirBreakdown<K>,
    fit: &F,
    p: &BreakdownParams<K::Real>,
) -> (r: Result<BreakdownRun<K::Real>, BreakdownCaseError<K::Real>>)
    requires
        p.points >= 2,
        p.steps < usize::MAX,
        p.points * p.steps <= usize::MAX,
    ensures
        is_swept(model@, *fit, *p, r),
{
    let k: &K = model.kinetics();
    let central: Vec<(K::Real, K::Real)> = match threshold_curve(model, p) {
        Ok(c) => c,
        Err(e) => {
            return Err(BreakdownCaseError::Threshold(e));
        },
    };
    let loss: (K::Real, K::Real) = k.large_loss();
    let flat: AirBreakdown<K> = (*model).with_inelastic_loss(loss.0, loss.1);
    proof {
        assert(call_ensures(K::large_loss, (k,), loss));
        assert(is_edge(model@, loss, flat@));
        assert(is_flat_edge(model@, flat@));
    }
    let below: Vec<(K::Real, K::Real)> = match threshold_curve(&flat, p) {
        Ok(c) => c,
        Err(e) => {
            proof {
                assert(is_flat_failure(model@, *p, central@, flat@, e));
            }
            return Err(BreakdownCaseError::Threshold(e));
        },
    };
    let loss: (K::Real, K::Real) = k.small_loss();
    let steep: AirBreakdown<K> = (*model).with_inelastic_loss(loss.0, loss.1);
    proof {
        assert(call_ensures(K::small_loss, (k,), loss));
        assert(is_edge(model@, loss, steep@));
        assert(is_steep_edge(model@, steep@));
    }
    let above: Vec<(K::Real, K::Real)> = match threshold_curve(&steep, p) {
        Ok(c) => c,
        Err(e) => {
            proof {
                assert(is_steep_failure(model@, *p, central@, flat@, below@, steep@, e));
            }
            return Err(BreakdownCaseError::Threshold(e));
        },
    };
    let ghost c = Curves { central: central@, flat: below@, steep: above@ };
    proof {
        assert(are_curves(model@, flat@, steep@, *p, c));
    }
    let slope: K::Real = match fall_of(k, fit, central.as_slice()) {
        Some(n) => n,
        None => {
            return Err(BreakdownCaseError::SlopeFit);
        },
    };
    proof {
        assert(is_fall(*k, *fit, central@, Some(slope)));
    }
    let flat_slope: K::Real = match fall_of(k, fit, below.as_slice()) {
        Some(n) => n,
        None => {
            return Err(BreakdownCaseError::FlatEdgeFit);
        },
    };
    proof {
        assert(is_fall(*k, *fit, below@, Some(flat_slope)));
    }
    let steep_slope: K::Real = match fall_of(k, fit, above.as_slice()) {
        Some(n) => n,
        None => {
            return Err(BreakdownCaseError::SteepEdgeFit);
        },
    };
    let highest: K::Real = central[central.len() - 1].1;
    let drive: K::Real = k.times(p.drive, highest);
    let dt: K::Real = k.trace_step(p.fwhm, p.steps);
    let trace_time: Vec<K::Real> = trace_times(k, p, dt);
    let cols: Columns<K::Real> = columns(
        model,
        p,
        drive,
        dt,
        central.as_slice(),
        trace_time.as_slice(),
    );
    proof {
        assert forall|i: int| 0 <= i < cols.rows@.len() implies (#[trigger] cols.rows@[i])@.len()
            == p.steps by {
            assert(is_trace(
                model@,
                *p,
                drive,
                dt,
                central@[i].0,
                trace_time@,
                cols.seeds@[i],
                cols.rows@[i]@,
            ));
        }
    }
    let ne_traces: Plane<K::Real> = as_rows(cols.rows.as_slice(), p.steps);
    let ghost rows = cols.rows@;
    let run: BreakdownRun<K::Real> = BreakdownRun {
        pressure_torr: cols.torr,
        threshold: shown(k, central.as_slice()),
        threshold_lo_slope: shown(k, below.as_slice()),
        threshold_hi_slope: shown(k, above.as_slice()),
        slope,
        slope_envelope: (flat_slope, steep_slope),
        drive_intensity: k.per_square_centimetre(drive),
        ne_traces,
        trace_time,
        n_bd: model.criterion_density(),
        n_seed: cols.seeds,
        neutral_density: cols.neutral,
        cascade_theory: cols.theory,
    };
    proof {
        assert forall|i: int|
            #![trigger run.ne_traces@[i]]
            0 <= i < central@.len() implies is_trace(
            model@,
            *p,
            drive,
            dt,
            c.central[i].0,
            run.trace_time@,
            run.n_seed@[i],
            run.ne_traces@[i],
        ) by {
            assert(run.ne_traces@[i] == rows[i]@);
        }
        assert(is_driven(model@, *p, c, drive, dt, run));
        assert(is_reported(model@, *fit, *p, c, run));
    }
    Ok(run)
}

/// Sweep the threshold of a gas against its pressure and follow its electrons at
/// one intensity.
pub fn run_breakdown<K: BreakdownCase + Copy, F: Fitting<Real = K::Real>>(
    k: &K,
    fit: &F,
    p: &BreakdownParams<K::Real>,
) -> (r: Result<BreakdownRun<K::Real>, BreakdownCaseError<K::Real>>)
    requires
        p.steps < usize::MAX,
        p.points * p.steps <= usize::MAX,
    ensures
        is_breakdown_run(*k, *fit, *p, r),
{
    if !(k.is_positive(p.p_min_torr) && k.exceeds(p.p_max_torr, p.p_min_torr)) {
        return Err(BreakdownCaseError::BadPressures);
    }
    if p.points < 2 {
        return Err(BreakdownCaseError::TooFewPoints);
    }
    let built: Result<AirBreakdown<K>, BreakdownError<K::Real>> = case_model(k, p.wavelength);
    match built {
        Err(e) => Err(BreakdownCaseError::Model(e)),
        Ok(model) => {
            let r: Result<BreakdownRun<K::Real>, BreakdownCaseError<K::Real>> = sweep_model(&model, fit, p);
            proof {
                assert(is_case_model(*k, p.wavelength, Ok(model)));
            }
            r
        },
    }
}

/// The pressures that a run reports increase, where the pressures of a sweep do.
pub proof fn law_pressures_increase<K: BreakdownCase, F: Fitting<Real = K::Real>>(
    k: K,
    fit: F,
    p: BreakdownParams<K::Real>,
    run: BreakdownRun<K::Real>,
    size: spec_fn(K::Real) -> real,
    i: int,
    j: int,
)
    requires
        is_breakdown_run(k, fit, p, Ok(run)),
        forall|i: usize, j: usize, a: K::Real, b: K::Real|
            #![trigger call_ensures(K::sweep_pressure, (&k, p.p_min_torr, p.p_max_torr, i, p.points), a), call_ensures(K::sweep_pressure, (&k, p.p_min_torr, p.p_max_torr, j, p.points), b)]
            i < j < p.points && call_ensures(
                K::sweep_pressure,
                (&k, p.p_min_torr, p.p_max_torr, i, p.points),
                a,
            ) && call_ensures(
                K::sweep_pressure,
                (&k, p.p_min_torr, p.p_max_torr, j, p.points),
                b,
            ) ==> size(a) < size(b),
        0 <= i < j < run.pressure_torr@.len(),
    ensures
        run.pressure_torr@.len() == p.points,
        size(run.pressure_torr@[i]) < size(run.pressure_torr@[j]),
{
    let model = choose|model: AirBreakdown<K>| #[trigger]
        is_case_model(k, p.wavelength, Ok(model)) && is_swept(model@, fit, p, Ok(run));
    let m = model@;
    assert(m.kinetics == k);
    let (flat, steep, c) = choose|flat: Model<K>, steep: Model<K>, c: Curves<K::Real>| #[trigger]
        are_curves(m, flat, steep, p, c) && is_reported(m, fit, p, c, run);
    assert(is_curve_point(m, p, i, c.central[i].0, Ok(c.central[i].1)));
    assert(is_curve_point(m, p, j, c.central[j].0, Ok(c.central[j].1)));
    assert(run.pressure_torr@[i] == c.central[i].0 && run.pressure_torr@[j] == c.central[j].0);
}

/// No density of a trace is above full ionization, where its seed is not.
pub proof fn law_trace_is_bounded_by_the_neutrals<K: BreakdownCase>(
    m: Model<K>,
    p: BreakdownParams<K::Real>,
    drive: K::Real,
    dt: K::Real,
    pressure: K::Real,
    times: Seq<K::Real>,
    run: Seq<K::Real>,
    neutral: K::Real,
    x: Exact<K::Real>,
    s: int,
)
    requires
        is_trace_run(m, p, drive, dt, pressure, times, run),
        is_exact(m.kinetics, x),
        m.is_neutral(pressure, neutral),
        (x.worth)(neutral) > 0real,
        (x.worth)(dt) >= 0real,
        forall|at: K::Real, intensity: K::Real, rates: Rates<K::Real>|
            #![trigger call_ensures(K::trace_intensity, (&m.kinetics, drive, p.fwhm, at), intensity), m.are_rates(intensity, pressure, rates)]
            call_ensures(K::trace_intensity, (&m.kinetics, drive, p.fwhm, at), intensity)
                && m.are_rates(intensity, pressure, rates) ==> (x.worth)(rates.cascade) >= 0real && (
            x.worth)(rates.loss) >= 0real,
        (x.worth)(run[0]) <= (x.worth)(neutral),
        0 <= s < run.len(),
    ensures
        (x.worth)(run[s]) <= (x.worth)(neutral),
    decreases s,
{
    if s > 0 {
        let b = s - 1;
        law_trace_is_bounded_by_the_neutrals(
            m,
            p,
            drive,
            dt,
            pressure,
            times,
            run,
            neutral,
            x,
            b,
        );
        assert(is_trace_leg(m, p, drive, dt, pressure, times, run, b));
        let (intensity, free) = choose|intensity: K::Real, free: K::Real|
            {
                &&& #[trigger] call_ensures(
                    K::trace_intensity,
                    (&m.kinetics, drive, p.fwhm, times[b]),
                    intensity,
                )
                &&& #[trigger] m.is_advanced(run[b], intensity, pressure, dt, free)
                &&& call_ensures(K::larger, (&m.kinetics, free, run[0]), run[s])
            };
        let rates = choose|rates: Rates<K::Real>| #[trigger]
            m.are_rates(intensity, pressure, rates) && m.is_advanced_under(rates, run[b], dt, free);
        lemma_one_neutral(m, pressure, neutral, rates.neutral, x);
        lemma_rates_are_balanced(m, intensity, pressure, rates, x);
        law_density_is_bounded_by_the_neutrals(m, rates, run[b], dt, free, x);
        reveal(is_exact);
    }
}

} // verus!

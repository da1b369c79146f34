//! Beam runs: what is launched, which steps are kept, and what is made of them.
//!
//! Every run records the same way: the central slice of the intensity after each
//! step, and the whole intensity after some of them.
use crate::airprops::{AirProperties, AirScale, AirTable};
use crate::blooming::{is_blooming, BloomingError, BloomingRefusal, Heating, ThermalBlooming};
use crate::field::{is_power, Field};
use crate::grid::{is_grid_size, Grid};
use crate::medium::{is_kruse, kruse_extinction, Haze, Medium, UniformExtinction};
use crate::montecarlo::seeded_ensemble;
use crate::optics::{is_extinction, is_extinction_judged, is_launchable, Optics};
use crate::plane::Plane;
use crate::propagate::{
    are_observed, beam_width, centroid, is_beam_width, is_centroid, is_edge, is_intensity, is_run,
    is_run_guard, is_step, March, PropagateError, Propagator,
};
use crate::table::{TableError, Tabulation};
use crate::viz::XzSliceMap;
use vstd::prelude::*;

verus! {

/// Steps between two snapshots of a run.
pub open spec fn spec_frame_every(steps: int, frames: int) -> int {
    let parts = if frames > 0 {
        frames
    } else {
        1
    };
    if steps / parts > 1 {
        steps / parts
    } else {
        1
    }
}

/// Steps between two snapshots of a run of `steps` with `frames` wanted: one at
/// least.
pub fn frame_every(steps: usize, frames: usize) -> (every: usize)
    ensures
        every == spec_frame_every(steps as int, frames as int),
        every >= 1,
{
    let parts: usize = if frames > 0 {
        frames
    } else {
        1
    };
    let every: usize = steps / parts;
    if every > 1 {
        every
    } else {
        1
    }
}

/// Whether the intensity after a step is kept: at every multiple of the interval
/// and at the end.
pub open spec fn is_snapshot(step: int, every: int, steps: int) -> bool {
    step % every == 0 || step == steps
}

/// The kept steps up to `upto`, the launch among them.
pub open spec fn schedule(upto: int, every: int, steps: int) -> Seq<int>
    decreases upto,
{
    if upto <= 0 {
        seq![0]
    } else if is_snapshot(upto, every, steps) {
        schedule(upto - 1, every, steps).push(upto)
    } else {
        schedule(upto - 1, every, steps)
    }
}

/// A schedule begins with the launch, ends with the end of the run, and never
/// goes back.
pub proof fn law_schedule_spans_the_run(every: int, steps: int)
    requires
        every >= 1,
        steps >= 0,
    ensures
        schedule(steps, every, steps).len() > 0,
        schedule(steps, every, steps).first() == 0,
        schedule(steps, every, steps).last() == steps,
        forall|i: int, j: int|
            0 <= i < j < schedule(steps, every, steps).len() ==> #[trigger] schedule(
                steps,
                every,
                steps,
            )[i] < #[trigger] schedule(steps, every, steps)[j],
{
    lemma_schedule(steps, every, steps);
}

pub(crate) proof fn lemma_schedule(upto: int, every: int, steps: int)
    requires
        every >= 1,
        0 <= upto <= steps,
    ensures
        schedule(upto, every, steps).len() > 0,
        schedule(upto, every, steps).len() <= upto + 1,
        schedule(upto, every, steps).first() == 0,
        schedule(upto, every, steps).last() <= upto,
        is_snapshot(upto, every, steps) ==> schedule(upto, every, steps).last() == upto,
        forall|i: int|
            0 <= i < schedule(upto, every, steps).len() ==> 0 <= #[trigger] schedule(
                upto,
                every,
                steps,
            )[i] <= upto,
        forall|i: int, j: int|
            0 <= i < j < schedule(upto, every, steps).len() ==> #[trigger] schedule(
                upto,
                every,
                steps,
            )[i] < #[trigger] schedule(upto, every, steps)[j],
    decreases upto,
{
    if upto > 0 {
        lemma_schedule(upto - 1, every, steps);
    }
}

/// A run keeps no more snapshots than steps, and the launch.
pub proof fn law_schedule_is_bounded(every: int, steps: int)
    requires
        every >= 1,
        steps >= 0,
    ensures
        schedule(steps, every, steps).len() <= steps + 1,
{
    lemma_schedule(steps, every, steps);
}

/// First row of the middle half of `n`.
pub open spec fn middle_start(n: int) -> int {
    n / 4
}

/// Row behind the middle half of `n`.
pub open spec fn middle_end(n: int) -> int {
    3 * n / 4
}

/// The middle half of the rows of an array.
pub fn crop_middle_x<T: Copy>(full: &Plane<T>) -> (p: Plane<T>)
    requires
        full.wf(),
        3 * full@.len() <= usize::MAX,
    ensures
        p.wf(),
        p@ == full@.subrange(middle_start(full@.len() as int), middle_end(full@.len() as int)),
        p.spec_width() == full.spec_width(),
{
    let n: usize = full.height();
    let lo: usize = n / 4;
    let hi: usize = 3 * n / 4;
    let width: usize = full.width();
    proof {
        assert((hi - lo) * width <= n * width) by (nonlinear_arith)
            requires
                0 <= hi - lo <= n,
                0 <= width,
        ;
    }
    let pick = |j: usize, i: usize| -> (v: T)
        requires
            full.wf(),
            lo + j < full@.len(),
            i < full.spec_width(),
        ensures
            v == full@[lo + j][i as int],
        { *full.at(lo + j, i) };
    let p: Plane<T> = Plane::from_fn(hi - lo, width, pick);
    proof {
        let want = full@.subrange(lo as int, hi as int);
        assert forall|j: int| 0 <= j < p@.len() implies #[trigger] p@[j] == want[j] by {
            assert forall|i: int| 0 <= i < width implies #[trigger] p@[j][i] == want[j][i] by {}
            assert(p@[j] =~= want[j]);
        }
        assert(p@ =~= want);
    }
    p
}

/// Arrays of one shape as one array, a row for each in row-major order.
pub fn stack<T: Copy>(maps: &[Plane<T>], height: usize, width: usize) -> (s: Plane<T>)
    requires
        forall|m: int|
            0 <= m < maps@.len() ==> (#[trigger] maps@[m]).wf() && maps@[m]@.len() == height
                && maps@[m].spec_width() == width,
        height * width <= usize::MAX,
        maps@.len() * (height * width) <= usize::MAX,
    ensures
        s.wf(),
        s@.len() == maps@.len(),
        s.spec_width() == height * width,
        forall|m: int| 0 <= m < maps@.len() ==> #[trigger] s@[m] == maps@[m].stored(),
{
    let len: usize = height * width;
    let pick = |m: usize, l: usize| -> (v: T)
        requires
            m < maps@.len(),
            l < maps@[m as int].stored().len(),
        ensures
            v == maps@[m as int].stored()[l as int],
        { maps[m].as_slice()[l] };
    let s: Plane<T> = Plane::from_fn(maps.len(), len, pick);
    proof {
        assert forall|m: int| 0 <= m < maps@.len() implies #[trigger] s@[m] == maps@[m].stored() by {
            assert forall|l: int| 0 <= l < len implies #[trigger] s@[m][l]
                == maps@[m].stored()[l] by {}
            assert(s@[m] =~= maps@[m].stored());
        }
    }
    s
}

/// The values of a line of results, or the first failure.
pub open spec fn is_gathered<T, E>(results: Seq<Result<T, E>>, r: Result<Seq<T>, E>) -> bool {
    match r {
        Ok(values) => values.len() == results.len() && forall|i: int|
            0 <= i < results.len() ==> results[i] == Ok::<T, E>(#[trigger] values[i]),
        Err(e) => exists|k: int|
            {
                &&& 0 <= k < results.len()
                &&& #[trigger] results[k] == Err::<T, E>(e)
                &&& forall|i: int| 0 <= i < k ==> (#[trigger] results[i]) is Ok
            },
    }
}

/// The values of some results, or the first failure in their order.
pub fn gather<T, E>(results: Vec<Result<T, E>>) -> (r: Result<Vec<T>, E>)
    ensures
        match r {
            Ok(values) => is_gathered(results@, Ok(values@)),
            Err(e) => is_gathered(results@, Err(e)),
        },
{
    let ghost all = results@;
    let mut values: Vec<T> = Vec::with_capacity(results.len());
    let n: usize = results.len();
    let mut rest: Vec<Result<T, E>> = reversed(results);
    for i in 0..n
        invariant
            all == results@,
            n == all.len(),
            rest@.len() == n - i,
            forall|k: int| 0 <= k < n - i ==> #[trigger] rest@[k] == all[n - 1 - k],
            values@.len() == i,
            forall|k: int| 0 <= k < i ==> all[k] == Ok::<T, E>(#[trigger] values@[k]),
    {
        let next: Option<Result<T, E>> = rest.pop();
        match next {
            Some(Ok(v)) => {
                values.push(v);
            },
            Some(Err(e)) => {
                proof {
                    assert(all[i as int] == Err::<T, E>(e));
                    assert forall|k: int| 0 <= k < i implies (#[trigger] all[k]) is Ok by {
                        assert(all[k] == Ok::<T, E>(values@[k]));
                    }
                }
                return Err(e);
            },
            None => {},
        }
    }
    Ok(values)
}

/// The entries last to first.
fn reversed<T>(v: Vec<T>) -> (r: Vec<T>)
    ensures
        r@ == v@.reverse(),
{
    let ghost all = v@;
    let n: usize = v.len();
    let mut v: Vec<T> = v;
    let mut r: Vec<T> = Vec::with_capacity(n);
    for i in 0..n
        invariant
            n == all.len(),
            v@ == all.subrange(0, n - i),
            r@ == all.reverse().subrange(0, i as int),
    {
        let next: Option<T> = v.pop();
        if let Some(x) = next {
            r.push(x);
        }
        proof {
            assert(v@ =~= all.subrange(0, n - i - 1));
            assert(r@ =~= all.reverse().subrange(0, i + 1));
        }
    }
    proof {
        assert(r@ =~= all.reverse());
    }
    r
}

/// What a run sees of a field after a step: its central slice, and all of it
/// where the step is kept.
pub struct Glimpse<R> {
    pub row: Vec<R>,
    pub map: Option<Plane<R>>,
}

/// `row` is the central slice of an amplitude's intensity.
pub open spec fn is_slice<K: Optics>(
    optics: K,
    n: int,
    u: Plane<K::Complex>,
    row: Seq<K::Real>,
) -> bool {
    &&& row.len() == n
    &&& forall|x: int|
        0 <= x < n ==> call_ensures(K::intensity, (&optics, u@[n / 2][x]), #[trigger] row[x])
}

/// What a run may see after step `i`.
pub open spec fn is_glimpse<K: Optics>(
    optics: K,
    every: int,
    steps: int,
    i: int,
    f: Field<K::Real, K::Complex>,
    g: Glimpse<K::Real>,
) -> bool {
    let n = f.grid.n as int;
    &&& is_slice(optics, n, f.u, g.row@)
    &&& i < usize::MAX ==> match g.map {
        Some(p) => is_snapshot(i + 1, every, steps) && is_intensity(optics, n, f.u, p),
        None => !is_snapshot(i + 1, every, steps),
    }
}

fn glimpse<K: Optics>(
    optics: &K,
    every: usize,
    steps: usize,
    i: usize,
    f: &Field<K::Real, K::Complex>,
) -> (g: Glimpse<K::Real>)
    requires
        f.valid(),
        every >= 1,
    ensures
        is_glimpse(*optics, every as int, steps as int, i as int, *f, g),
{
    let p: Plane<K::Real> = f.intensity(optics);
    let row: Vec<K::Real> = p.row(f.grid.n / 2);
    let keep: bool = match i.checked_add(1) {
        Some(step) => step % every == 0 || step == steps,
        None => false,
    };
    proof {
        assert(is_intensity(*optics, f.grid.n as int, f.u, p));
    }
    Glimpse {
        row,
        map: if keep {
            Some(p)
        } else {
            None
        },
    }
}

/// A record of a run: the middle half of the side view, a column per step and
/// the launch first; the kept intensities and their steps; the last intensity;
/// the power at the end, and what the edge absorbed, over the power launched.
#[derive(Debug)]
pub struct BeamRecord<R> {
    pub side: Plane<R>,
    pub snapshots: Vec<Plane<R>>,
    pub snapshot_steps: Vec<usize>,
    pub final_intensity: Plane<R>,
    pub transmission: R,
    pub guard_frac: R,
}

/// A run as a trace, observed by nobody.
pub open spec fn is_traversal<K: Optics, M: Medium<K>>(
    pre: March<K>,
    field: Field<K::Real, K::Complex>,
    medium: M,
    dz: K::Real,
    n_steps: usize,
    trace: Seq<(March<K>, Plane<K::Complex>)>,
    post: March<K>,
    u: Plane<K::Complex>,
) -> bool {
    &&& is_run_guard(pre, field, medium, dz, 0, n_steps, Ok(()))
    &&& is_run(pre, medium, dz, 0, field.u, trace)
    &&& trace.len() == n_steps + 1
    &&& trace.last() == (post, u)
}

/// Why a run ends early: refused before the first step, or by a step.
pub open spec fn is_abandoned<K: Optics, M: Medium<K>>(
    pre: March<K>,
    field: Field<K::Real, K::Complex>,
    medium: M,
    dz: K::Real,
    n_steps: usize,
    post: March<K>,
    u: Plane<K::Complex>,
    e: PropagateError<M::Refusal>,
) -> bool {
    ||| is_run_guard(pre, field, medium, dz, 0, n_steps, Err(e)) && post == pre && u == field.u
    ||| is_run_guard(pre, field, medium, dz, 0, n_steps, Ok(()))
        && exists|trace: Seq<(March<K>, Plane<K::Complex>)>|
        {
            &&& #[trigger] is_run(pre, medium, dz, 0, field.u, trace)
            &&& trace.len() <= n_steps
            &&& is_step(
                trace.last().0,
                medium,
                (trace.len() - 1) as usize,
                dz,
                trace.last().1,
                post,
                u,
                Err(e),
            )
        }
}

/// The side view of a trace.
pub open spec fn is_side_view<K: Optics>(
    optics: K,
    n: int,
    trace: Seq<(March<K>, Plane<K::Complex>)>,
    side: Plane<K::Real>,
) -> bool {
    &&& side.wf()
    &&& side@.len() == middle_end(n) - middle_start(n)
    &&& side.spec_width() == trace.len()
    &&& forall|x: int, z: int|
        0 <= x < side@.len() && 0 <= z < trace.len() ==> call_ensures(
            K::intensity,
            (&optics, trace[z].1@[n / 2][middle_start(n) + x]),
            #[trigger] side@[x][z],
        )
}

/// The kept intensities of a trace.
pub open spec fn are_snapshots<K: Optics>(
    optics: K,
    n: int,
    trace: Seq<(March<K>, Plane<K::Complex>)>,
    steps: Seq<int>,
    snapshots: Seq<Plane<K::Real>>,
) -> bool {
    &&& snapshots.len() == steps.len()
    &&& forall|m: int|
        0 <= m < steps.len() ==> is_intensity(optics, n, trace[steps[m]].1, #[trigger] snapshots[m])
}

/// Steps as integers.
pub open spec fn as_ints(steps: Seq<usize>) -> Seq<int> {
    Seq::new(steps.len(), |m: int| steps[m] as int)
}

/// Power at the end of a run, and what its edge absorbed, over what was
/// launched.
pub open spec fn are_fractions<K: Optics>(
    optics: K,
    n: nat,
    launched: Plane<K::Complex>,
    after: Plane<K::Complex>,
    absorbed: K::Real,
    transmission: K::Real,
    guard: K::Real,
) -> bool {
    exists|p0: K::Real, p1: K::Real|
        {
            &&& #[trigger] is_power(optics, launched@, n, p0)
            &&& #[trigger] is_power(optics, after@, n, p1)
            &&& call_ensures(K::ratio, (&optics, p1, p0), transmission)
            &&& call_ensures(K::ratio, (&optics, absorbed, p0), guard)
        }
}

/// `rec` is the record of a trace.
pub open spec fn is_record<K: Optics>(
    optics: K,
    n: int,
    frames: int,
    trace: Seq<(March<K>, Plane<K::Complex>)>,
    rec: BeamRecord<K::Real>,
) -> bool {
    let steps = trace.len() - 1;
    &&& is_side_view(optics, n, trace, rec.side)
    &&& as_ints(rec.snapshot_steps@) == schedule(steps, spec_frame_every(steps, frames), steps)
    &&& are_snapshots(optics, n, trace, as_ints(rec.snapshot_steps@), rec.snapshots@)
    &&& is_intensity(optics, n, trace.last().1, rec.final_intensity)
    &&& are_fractions(
        optics,
        n as nat,
        trace[0].1,
        trace.last().1,
        trace.last().0.absorbed,
        rec.transmission,
        rec.guard_frac,
    )
}

/// What a recorded run may do.
pub open spec fn is_recorded_run<K: Optics, M: Medium<K>>(
    optics: K,
    pre: March<K>,
    field: Field<K::Real, K::Complex>,
    medium: M,
    dz: K::Real,
    steps: usize,
    frames: usize,
    post: March<K>,
    u: Plane<K::Complex>,
    r: Result<BeamRecord<K::Real>, PropagateError<M::Refusal>>,
) -> bool {
    match r {
        Err(e) => is_abandoned(pre, field, medium, dz, steps, post, u, e),
        Ok(rec) => exists|trace: Seq<(March<K>, Plane<K::Complex>)>| #[trigger]
            is_traversal(pre, field, medium, dz, steps, trace, post, u) && is_record(
                optics,
                field.grid.n as int,
                frames as int,
                trace,
                rec,
            ),
    }
}

/// The central slices of the first states of a trace.
pub open spec fn are_slices<K: Optics>(
    optics: K,
    n: int,
    trace: Seq<(March<K>, Plane<K::Complex>)>,
    rows: Seq<Vec<K::Real>>,
) -> bool {
    forall|z: int| 0 <= z < rows.len() ==> is_slice(optics, n, trace[z].1, (#[trigger] rows[z])@)
}

/// The side view of some slices: the middle half of their map.
fn side_view<K: Optics>(
    optics: &K,
    n: usize,
    rows: Vec<Vec<K::Real>>,
    Ghost(trace): Ghost<Seq<(March<K>, Plane<K::Complex>)>>,
) -> (side: Plane<K::Real>)
    requires
        are_slices(*optics, n as int, trace, rows@),
        rows@.len() == trace.len(),
        trace.len() > 0,
        3 * n <= usize::MAX,
        n * rows@.len() <= usize::MAX,
    ensures
        is_side_view(*optics, n as int, trace, side),
{
    let ghost slices = rows@;
    let map: XzSliceMap<K::Real> = XzSliceMap::from_slices(rows);
    proof {
        assert forall|z: int| 0 <= z < map@.len() implies (#[trigger] map@[z]).len() == n by {
            assert(is_slice(*optics, n as int, trace[z].1, slices[z]@));
        }
    }
    let full: Plane<K::Real> = map.to_array();
    let side: Plane<K::Real> = crop_middle_x(&full);
    proof {
        let lo = middle_start(n as int);
        assert forall|x: int, z: int|
            0 <= x < side@.len() && 0 <= z < trace.len() implies call_ensures(
            K::intensity,
            (optics, trace[z].1@[n as int / 2][lo + x]),
            #[trigger] side@[x][z],
        ) by {
            assert(is_slice(*optics, n as int, trace[z].1, slices[z]@));
            assert(side@[x][z] == full@[lo + x][z]);
            assert(full@[lo + x][z] == map@[z][lo + x]);
        }
    }
    side
}

/// Propagate a field and record the run.
pub fn record_run<K: Optics, M: Medium<K>>(
    optics: &K,
    prop: &mut Propagator<K>,
    field: &mut Field<K::Real, K::Complex>,
    medium: &M,
    dz: K::Real,
    steps: usize,
    frames: usize,
) -> (r: Result<BeamRecord<K::Real>, PropagateError<M::Refusal>>)
    requires
        old(prop).wf(),
        old(field).valid(),
        old(prop)@.optics == *optics,
        steps < usize::MAX,
        3 * old(field).grid.n <= usize::MAX,
        old(field).grid.n * (steps + 1) <= usize::MAX,
    ensures
        final(prop).wf(),
        final(field).valid(),
        final(field).grid == old(field).grid,
        is_recorded_run(
            *optics,
            old(prop)@,
            *old(field),
            *medium,
            dz,
            steps,
            frames,
            final(prop)@,
            final(field).u,
            r,
        ),
{
    let every: usize = frame_every(steps, frames);
    let ghost pre = prop@;
    let ghost start = *field;
    let n: usize = field.grid.n;
    let p0: K::Real = field.power(optics);
    let launch: Plane<K::Real> = field.intensity(optics);
    let first: Vec<K::Real> = launch.row(n / 2);
    proof {
        assert(is_intensity(*optics, n as int, start.u, launch));
        assert(is_slice(*optics, n as int, start.u, first@));
    }
    let on_step = |i: usize, f: &Field<K::Real, K::Complex>| -> (g: Glimpse<K::Real>)
        requires
            f.valid(),
            every >= 1,
        ensures
            is_glimpse(*optics, every as int, steps as int, i as int, *f, g),
        { glimpse(optics, every, steps, i, f) };
    let run: Result<Vec<Glimpse<K::Real>>, PropagateError<M::Refusal>> = prop.propagate(
        field,
        medium,
        dz,
        0,
        steps,
        on_step,
    );
    let seen: Vec<Glimpse<K::Real>> = match run {
        Ok(seen) => seen,
        Err(e) => {
            return Err(e);
        },
    };
    let ghost glimpses = seen@;
    let ghost trace = choose|trace: Seq<(March<K>, Plane<K::Complex>)>|
        {
            &&& #[trigger] is_run(pre, *medium, dz, 0, start.u, trace)
            &&& trace.len() == steps + 1
            &&& trace.last() == (prop@, field.u)
            &&& are_observed::<K, Glimpse<K::Real>, _>(
                on_step,
                0,
                start.grid,
                start.wavelength,
                trace,
                glimpses,
            )
        };
    proof {
        assert(is_traversal(pre, start, *medium, dz, steps, trace, prop@, field.u));
        assert forall|k: int| 0 <= k < steps implies is_slice(
            *optics,
            n as int,
            trace[k + 1].1,
            (#[trigger] glimpses[k]).row@,
        ) && match glimpses[k].map {
            Some(p) => is_snapshot(k + 1, every as int, steps as int) && is_intensity(
                *optics,
                n as int,
                trace[k + 1].1,
                p,
            ),
            None => !is_snapshot(k + 1, every as int, steps as int),
        } by {
            let f = Field { grid: start.grid, wavelength: start.wavelength, u: trace[k + 1].1 };
            assert(call_ensures(on_step, (k as usize, &f), glimpses[k]));
            assert(is_glimpse(*optics, every as int, steps as int, k, f, glimpses[k]));
        }
    }
    let mut rest: Vec<Glimpse<K::Real>> = reversed(seen);
    let mut rows: Vec<Vec<K::Real>> = Vec::new();
    rows.push(first);
    let mut snapshots: Vec<Plane<K::Real>> = Vec::new();
    snapshots.push(launch);
    let mut snapshot_steps: Vec<usize> = Vec::new();
    snapshot_steps.push(0);
    proof {
        assert(as_ints(snapshot_steps@) =~= schedule(0, every as int, steps as int));
    }
    for i in 0..steps
        invariant
            steps < usize::MAX,
            every >= 1,
            glimpses.len() == steps,
            trace.len() == steps + 1,
            rest@.len() == steps - i,
            forall|k: int| 0 <= k < steps - i ==> #[trigger] rest@[k] == glimpses[steps - 1 - k],
            forall|k: int|
                0 <= k < steps ==> is_slice(
                    *optics,
                    n as int,
                    trace[k + 1].1,
                    (#[trigger] glimpses[k]).row@,
                ) && match glimpses[k].map {
                    Some(p) => is_snapshot(k + 1, every as int, steps as int) && is_intensity(
                        *optics,
                        n as int,
                        trace[k + 1].1,
                        p,
                    ),
                    None => !is_snapshot(k + 1, every as int, steps as int),
                },
            rows@.len() == i + 1,
            are_slices(*optics, n as int, trace, rows@),
            as_ints(snapshot_steps@) == schedule(i as int, every as int, steps as int),
            are_snapshots(*optics, n as int, trace, as_ints(snapshot_steps@), snapshots@),
    {
        let next: Option<Glimpse<K::Real>> = rest.pop();
        if let Some(g) = next {
            proof {
                assert(g == glimpses[i as int]);
            }
            let ghost rows0 = rows@;
            let ghost steps0 = snapshot_steps@;
            let ghost maps0 = snapshots@;
            rows.push(g.row);
            proof {
                assert forall|z: int| 0 <= z < rows@.len() implies is_slice(
                    *optics,
                    n as int,
                    trace[z].1,
                    (#[trigger] rows@[z])@,
                ) by {
                    if z <= i {
                        assert(rows@[z] == rows0[z]);
                    }
                }
            }
            match g.map {
                Some(p) => {
                    snapshots.push(p);
                    snapshot_steps.push(i + 1);
                    proof {
                        let sched = as_ints(snapshot_steps@);
                        assert(sched =~= as_ints(steps0).push(i + 1));
                        assert forall|m: int| 0 <= m < sched.len() implies is_intensity(
                            *optics,
                            n as int,
                            trace[sched[m]].1,
                            #[trigger] snapshots@[m],
                        ) by {
                            if m < steps0.len() {
                                assert(snapshots@[m] == maps0[m]);
                                assert(sched[m] == as_ints(steps0)[m]);
                            }
                        }
                    }
                },
                None => {},
            }
        }
    }
    let side: Plane<K::Real> = side_view(optics, n, rows, Ghost(trace));
    let final_intensity: Plane<K::Real> = field.intensity(optics);
    let p1: K::Real = field.power(optics);
    let transmission: K::Real = optics.ratio(p1, p0);
    let guard_frac: K::Real = optics.ratio(prop.guard_absorbed(), p0);
    let rec: BeamRecord<K::Real> = BeamRecord {
        side,
        snapshots,
        snapshot_steps,
        final_intensity,
        transmission,
        guard_frac,
    };
    proof {
        assert(is_power(*optics, start.u@, n as nat, p0));
        assert(is_power(*optics, field.u@, n as nat, p1));
        assert(are_fractions(
            *optics,
            n as nat,
            start.u,
            field.u,
            prop@.absorbed,
            transmission,
            guard_frac,
        ));
        assert(is_intensity(*optics, n as int, field.u, final_intensity));
        assert(is_record(*optics, n as int, frames as int, trace, rec));
    }
    Ok(rec)
}

/// The arithmetic of a run's lengths.
pub trait PathCase: Optics {
    /// Path of a run that names none, for a waist.
    fn default_path(&self, w0: Self::Real) -> Self::Real;

    /// Thickness of one of `steps` slabs of a path.
    fn slab(&self, path: Self::Real, steps: usize) -> Self::Real;

    /// Distance after a number of slabs.
    fn distance(&self, step: usize, dz: Self::Real) -> Self::Real;

    /// A number of members as a real.
    fn members(&self, n: usize) -> Self::Real;
}

/// `zs` are the distances of some steps.
pub open spec fn are_distances<K: PathCase>(
    k: K,
    dz: K::Real,
    steps: Seq<usize>,
    zs: Seq<K::Real>,
) -> bool {
    &&& zs.len() == steps.len()
    &&& forall|m: int|
        0 <= m < zs.len() ==> call_ensures(K::distance, (&k, steps[m], dz), #[trigger] zs[m])
}

/// Distances of some steps.
fn distances<K: PathCase>(k: &K, dz: K::Real, steps: &[usize]) -> (zs: Vec<K::Real>)
    ensures
        are_distances(*k, dz, steps@, zs@),
{
    let mut zs: Vec<K::Real> = Vec::with_capacity(steps.len());
    for m in 0..steps.len()
        invariant
            zs@.len() == m,
            forall|l: int|
                0 <= l < m ==> call_ensures(K::distance, (k, steps@[l], dz), #[trigger] zs@[l]),
    {
        let z: K::Real = k.distance(steps[m], dz);
        zs.push(z);
    }
    zs
}

/// A Gaussian beam through a uniform atmosphere. An extinction takes precedence
/// over a visibility; with neither the path is lossless.
#[derive(Debug, Clone)]
pub struct PropagateParams<R> {
    pub n: usize,
    pub dx: R,
    pub wavelength: R,
    pub w0: R,
    pub z: Option<R>,
    pub steps: usize,
    pub frames: usize,
    pub alpha: Option<R>,
    pub visibility: Option<R>,
}

/// The result of a propagation run.
#[derive(Debug)]
pub struct PropagateRun<R> {
    pub grid: Grid<R>,
    pub z_total: R,
    pub dz: R,
    pub alpha: R,
    pub record: BeamRecord<R>,
    pub snapshot_z: Vec<R>,
    /// Width at the end; nothing for a field without power.
    pub width_x: Option<R>,
}

/// A size that a run can hold in memory.
pub open spec fn is_run_size(n: int, steps: int) -> bool {
    &&& is_grid_size(n)
    &&& n <= isize::MAX
    &&& n * n <= usize::MAX
    &&& 3 * n <= usize::MAX
    &&& steps < usize::MAX
    &&& n * (steps + 1) <= usize::MAX
}

/// `alpha` is the extinction of a run.
pub open spec fn is_run_extinction<K: Haze>(
    k: K,
    p: PropagateParams<K::Real>,
    alpha: K::Real,
) -> bool {
    match (p.alpha, p.visibility) {
        (Some(a), _) => alpha == a,
        (None, Some(v)) => is_kruse(k, p.wavelength, v, alpha),
        (None, None) => call_ensures(K::zero, (&k,), alpha),
    }
}

/// A freshly built propagator.
pub open spec fn is_fresh<K: Optics>(optics: K, n: int, m: March<K>) -> bool {
    &&& m.optics == optics
    &&& m.n == n
    &&& m.applies_edge
    &&& m.cached is None
    &&& call_ensures(K::zero, (&optics,), m.absorbed)
    &&& exists|profile: Seq<K::Real>| #[trigger] is_edge(optics, n, profile, m.edge)
}

/// A Gaussian beam as it is launched.
pub open spec fn is_launch<K: Optics>(
    optics: K,
    grid: Grid<K::Real>,
    wavelength: K::Real,
    w0: K::Real,
    f: Field<K::Real, K::Complex>,
) -> bool {
    let n = grid.n as int;
    &&& f.valid()
    &&& f.grid == grid
    &&& f.wavelength == wavelength
    &&& forall|j: int, i: int|
        0 <= j < n && 0 <= i < n ==> call_ensures(
            K::gaussian,
            (
                &optics,
                w0,
                crate::grid::offset_of(n, i) as isize,
                crate::grid::offset_of(n, j) as isize,
            ),
            #[trigger] f.u@[j][i],
        )
}

/// The wavelength of an arithmetic was found good or bad.
pub open spec fn is_wavelength_judged<K: Optics>(optics: K, good: bool) -> bool {
    exists|w: K::Real| #[trigger]
        call_ensures(K::wavelength, (&optics,), w) && call_ensures(
            K::is_positive,
            (&optics, w),
            good,
        )
}

/// Path length and slab of a run.
pub open spec fn is_path<K: PathCase>(
    k: K,
    p: PropagateParams<K::Real>,
    z_total: K::Real,
    dz: K::Real,
) -> bool {
    &&& match p.z {
        Some(z) => z_total == z,
        None => call_ensures(K::default_path, (&k, p.w0), z_total),
    }
    &&& call_ensures(K::slab, (&k, z_total, p.steps), dz)
}

/// The width of an amplitude across the first axis.
pub open spec fn is_width_x<K: Optics>(
    optics: K,
    n: int,
    u: Plane<K::Complex>,
    width: Option<K::Real>,
) -> bool {
    match width {
        None => is_beam_width(optics, u@, n as nat, None),
        Some(w) => exists|pair: (K::Real, K::Real)| #[trigger]
            is_beam_width(optics, u@, n as nat, Some(pair)) && w == pair.0,
    }
}

/// A propagation run from launch to end.
pub open spec fn is_propagate_done<K: PathCase + Haze>(
    k: K,
    p: PropagateParams<K::Real>,
    medium: UniformExtinction<K::Real>,
    launch: Field<K::Real, K::Complex>,
    pre: March<K>,
    post: March<K>,
    u: Plane<K::Complex>,
    run: PropagateRun<K::Real>,
) -> bool {
    let n = p.n as int;
    &&& run.grid == (Grid { n: p.n, dx: p.dx })
    &&& is_path(k, p, run.z_total, run.dz)
    &&& is_run_extinction(k, p, run.alpha)
    &&& is_extinction_judged(k, run.alpha, true)
    &&& medium.spec_n() == p.n
    &&& medium.spec_alpha() == run.alpha
    &&& is_launch(k, run.grid, p.wavelength, p.w0, launch)
    &&& is_fresh(k, n, pre)
    &&& is_recorded_run(
        k,
        pre,
        launch,
        medium,
        run.dz,
        p.steps,
        p.frames,
        post,
        u,
        Ok(run.record),
    )
    &&& are_distances(k, run.dz, run.record.snapshot_steps@, run.snapshot_z@)
    &&& is_width_x(k, n, u, run.width_x)
}

/// A propagation run that is abandoned.
pub open spec fn is_propagate_abandoned<K: PathCase + Haze>(
    k: K,
    p: PropagateParams<K::Real>,
    medium: UniformExtinction<K::Real>,
    launch: Field<K::Real, K::Complex>,
    z_total: K::Real,
    dz: K::Real,
    pre: March<K>,
    post: March<K>,
    u: Plane<K::Complex>,
    e: PropagateError<()>,
) -> bool {
    &&& is_path(k, p, z_total, dz)
    &&& is_run_extinction(k, p, medium.spec_alpha())
    &&& is_extinction_judged(k, medium.spec_alpha(), true)
    &&& medium.spec_n() == p.n
    &&& is_launch(k, Grid { n: p.n, dx: p.dx }, p.wavelength, p.w0, launch)
    &&& is_fresh(k, p.n as int, pre)
    &&& is_abandoned(pre, launch, medium, dz, p.steps, post, u, e)
}

/// What [`run_propagate`] may return.
pub open spec fn is_propagate_run<K: PathCase + Haze>(
    k: K,
    p: PropagateParams<K::Real>,
    r: Result<PropagateRun<K::Real>, PropagateError<()>>,
) -> bool {
    match r {
        Ok(run) => exists|
            medium: UniformExtinction<K::Real>,
            launch: Field<K::Real, K::Complex>,
            pre: March<K>,
            post: March<K>,
            u: Plane<K::Complex>,
        | #[trigger]
            is_propagate_done(k, p, medium, launch, pre, post, u, run),
        Err(e) => {
            ||| e is BadExtinction && exists|alpha: K::Real| #[trigger]
                is_run_extinction(k, p, alpha) && is_extinction_judged(k, alpha, false)
            ||| exists|alpha: K::Real| #[trigger]
                is_run_extinction(k, p, alpha) && is_extinction_judged(k, alpha, true)
                    && e is BadWavelength && is_wavelength_judged(k, false)
            ||| exists|
                medium: UniformExtinction<K::Real>,
                launch: Field<K::Real, K::Complex>,
                z_total: K::Real,
                dz: K::Real,
                pre: March<K>,
                post: March<K>,
                u: Plane<K::Complex>,
            | #[trigger]
                is_propagate_abandoned(k, p, medium, launch, z_total, dz, pre, post, u, e)
        },
    }
}

/// Propagate a Gaussian beam through a uniform atmosphere. A visibility that is
/// used, and the wavelength with it, must have been found positive and finite. An
/// extinction that is negative or not finite is refused.
pub fn run_propagate<K: PathCase + Haze + Copy>(k: &K, p: &PropagateParams<K::Real>) -> (r: Result<
    PropagateRun<K::Real>,
    PropagateError<()>,
>)
    requires
        is_run_size(p.n as int, p.steps as int),
        is_launchable(*k, p.dx, p.wavelength, p.w0),
        p.alpha is None && p.visibility is Some ==> call_ensures(
            K::is_positive,
            (k, p.visibility->0),
            true,
        ) && call_ensures(K::is_positive, (k, p.wavelength), true),
    ensures
        is_propagate_run(*k, *p, r),
{
    let grid: Grid<K::Real> = Grid::new(k, p.n, p.dx);
    let z_total: K::Real = match p.z {
        Some(z) => z,
        None => k.default_path(p.w0),
    };
    let dz: K::Real = k.slab(z_total, p.steps);
    let alpha: K::Real = match (p.alpha, p.visibility) {
        (Some(a), _) => a,
        (None, Some(v)) => kruse_extinction(k, p.wavelength, v),
        (None, None) => k.zero(),
    };
    proof {
        assert(is_run_extinction(*k, *p, alpha));
    }
    if !is_extinction(k, alpha) {
        return Err(PropagateError::BadExtinction);
    }
    let medium: UniformExtinction<K::Real> = UniformExtinction::new(k, grid.n, alpha);
    let mut field: Field<K::Real, K::Complex> = Field::gaussian(k, grid, p.wavelength, p.w0);
    let ghost launch = field;
    let mut prop: Propagator<K> = match Propagator::new(*k, p.n) {
        Ok(prop) => prop,
        Err(e) => {
            return Err(e);
        },
    };
    let ghost pre = prop@;
    let recorded: Result<BeamRecord<K::Real>, PropagateError<()>> = record_run(
        k,
        &mut prop,
        &mut field,
        &medium,
        dz,
        p.steps,
        p.frames,
    );
    proof {
        assert(is_launch(*k, grid, p.wavelength, p.w0, launch));
        assert(is_fresh(*k, p.n as int, pre));
        assert(is_path(*k, *p, z_total, dz));
        assert(is_run_extinction(*k, *p, alpha));
    }
    match recorded {
        Err(e) => {
            proof {
                assert(is_propagate_abandoned(
                    *k,
                    *p,
                    medium,
                    launch,
                    z_total,
                    dz,
                    pre,
                    prop@,
                    field.u,
                    e,
                ));
            }
            Err(e)
        },
        Ok(record) => {
            let snapshot_z: Vec<K::Real> = distances(k, dz, record.snapshot_steps.as_slice());
            let widths: Option<(K::Real, K::Real)> = beam_width(k, &field);
            let width_x: Option<K::Real> = match widths {
                Some((wx, _)) => Some(wx),
                None => None,
            };
            proof {
                assert(is_beam_width(*k, field.u@, p.n as nat, widths));
                assert(is_width_x(*k, p.n as int, field.u, width_x));
            }
            let run: PropagateRun<K::Real> = PropagateRun {
                grid,
                z_total,
                dz,
                alpha,
                record,
                snapshot_z,
                width_x,
            };
            proof {
                assert(is_propagate_done(*k, *p, medium, launch, pre, prop@, field.u, run));
            }
            Ok(run)
        },
    }
}

/// A Gaussian beam that heats the air that it crosses.
#[derive(Debug, Clone, Copy)]
pub struct BloomingParams<R> {
    pub n: usize,
    pub dx: R,
    pub wavelength: R,
    pub w0: R,
    pub power: R,
    pub wind: R,
    pub alpha_abs: R,
    pub t0: R,
    pub p0: R,
    pub z: R,
    pub steps: usize,
    pub frames: usize,
}

/// The result of a blooming run.
#[derive(Debug)]
pub struct BloomingRun<R> {
    pub grid: Grid<R>,
    pub dz: R,
    /// Distortion number of the whole path.
    pub n_phi: R,
    pub peclet: R,
    /// Temperature rise far downwind of the launched beam.
    pub delta_t_sat: R,
    pub record: BeamRecord<R>,
    pub snapshot_z: Vec<R>,
    /// Centroid at the end; nothing for a field without power.
    pub centroid_x: Option<R>,
}

/// Why a blooming run has no result.
#[derive(Debug, PartialEq)]
pub enum BloomingCaseError<R> {
    Table(TableError),
    Medium(BloomingError<R>),
    Propagate(PropagateError<BloomingRefusal>),
}

/// The closed forms that a blooming run reports beside its result.
pub trait BloomingCase: Heating + PathCase {
    fn distortion(&self, p: BloomingParams<Self::Real>, air: AirProperties<Self::Real>) -> Self::Real;

    fn saturated_rise(
        &self,
        p: BloomingParams<Self::Real>,
        air: AirProperties<Self::Real>,
    ) -> Self::Real;
}

/// The centroid of an amplitude across the first axis.
pub open spec fn is_centroid_x<K: Optics>(
    optics: K,
    n: int,
    u: Plane<K::Complex>,
    c: Option<K::Real>,
) -> bool {
    exists|total: K::Real, pair: Option<(K::Real, K::Real)>|
        {
            &&& #[trigger] is_centroid(optics, u@, n as nat, total, pair)
            &&& match pair {
                Some(xy) => c == Some(xy.0),
                None => c is None,
            }
        }
}

/// What the air table holds for a run.
pub open spec fn is_run_air<K: BloomingCase, T: AirScale + Tabulation<Real = K::Real>>(
    scale: T,
    table: AirTable<K::Real>,
    p: BloomingParams<K::Real>,
    r: Result<AirProperties<K::Real>, TableError>,
) -> bool {
    let (n_t, n_p) = (crate::airprops::N_T as int, crate::airprops::N_P as int);
    match r {
        Ok(air) => exists|c: crate::table::Place<K::Real>| #[trigger]
            crate::table::is_located(scale, n_t, n_p, p.t0, p.p0, Ok(c))
                && crate::airprops::is_air(scale, table@, c, p.wavelength, air),
        Err(e) => crate::table::is_located(scale, n_t, n_p, p.t0, p.p0, Err(e)),
    }
}

/// The medium that a run is given, or why there is none.
pub open spec fn is_run_medium<K: BloomingCase>(
    k: K,
    p: BloomingParams<K::Real>,
    air: AirProperties<K::Real>,
    launch: Field<K::Real, K::Complex>,
    r: Result<ThermalBlooming<K::Real>, BloomingError<K::Real>>,
) -> bool {
    &&& is_launch(k, Grid { n: p.n, dx: p.dx }, p.wavelength, p.w0, launch)
    &&& exists|power: K::Real| #[trigger]
        is_power(k, launch.u@, p.n as nat, power) && is_blooming(
            k,
            Grid { n: p.n, dx: p.dx },
            air,
            p.alpha_abs,
            p.wind,
            p.power,
            power,
            p.w0,
            p.t0,
            r,
        )
}

/// A blooming run from launch to end.
pub open spec fn is_blooming_done<K: BloomingCase>(
    k: K,
    p: BloomingParams<K::Real>,
    air: AirProperties<K::Real>,
    medium: ThermalBlooming<K::Real>,
    launch: Field<K::Real, K::Complex>,
    pre: March<K>,
    post: March<K>,
    u: Plane<K::Complex>,
    run: BloomingRun<K::Real>,
) -> bool {
    let n = p.n as int;
    &&& run.grid == (Grid { n: p.n, dx: p.dx })
    &&& call_ensures(K::slab, (&k, p.z, p.steps), run.dz)
    &&& call_ensures(K::distortion, (&k, p, air), run.n_phi)
    &&& call_ensures(K::peclet, (&k, air, p.wind, p.w0), run.peclet)
    &&& call_ensures(K::saturated_rise, (&k, p, air), run.delta_t_sat)
    &&& is_run_medium(k, p, air, launch, Ok(medium))
    &&& is_fresh(k, n, pre)
    &&& is_recorded_run(
        k,
        pre,
        launch,
        medium,
        run.dz,
        p.steps,
        p.frames,
        post,
        u,
        Ok(run.record),
    )
    &&& are_distances(k, run.dz, run.record.snapshot_steps@, run.snapshot_z@)
    &&& is_centroid_x(k, n, u, run.centroid_x)
}

/// A blooming run that is abandoned.
pub open spec fn is_blooming_abandoned<K: BloomingCase>(
    k: K,
    p: BloomingParams<K::Real>,
    air: AirProperties<K::Real>,
    medium: ThermalBlooming<K::Real>,
    launch: Field<K::Real, K::Complex>,
    dz: K::Real,
    pre: March<K>,
    post: March<K>,
    u: Plane<K::Complex>,
    e: PropagateError<BloomingRefusal>,
) -> bool {
    &&& call_ensures(K::slab, (&k, p.z, p.steps), dz)
    &&& is_run_medium(k, p, air, launch, Ok(medium))
    &&& is_fresh(k, p.n as int, pre)
    &&& is_abandoned(pre, launch, medium, dz, p.steps, post, u, e)
}

/// What a blooming run may return in a given air: the medium is looked at first,
/// then the wavelength, then the run.
pub open spec fn is_blooming_in_air<K: BloomingCase>(
    k: K,
    p: BloomingParams<K::Real>,
    air: AirProperties<K::Real>,
    r: Result<BloomingRun<K::Real>, BloomingCaseError<K::Real>>,
) -> bool {
    match r {
        Ok(run) => exists|
            medium: ThermalBlooming<K::Real>,
            launch: Field<K::Real, K::Complex>,
            pre: March<K>,
            post: March<K>,
            u: Plane<K::Complex>,
        | #[trigger]
            is_blooming_done(k, p, air, medium, launch, pre, post, u, run),
        Err(BloomingCaseError::Medium(e)) => exists|launch: Field<K::Real, K::Complex>| #[trigger]
            is_run_medium(k, p, air, launch, Err(e)),
        Err(BloomingCaseError::Propagate(e)) => {
            ||| e is BadWavelength && is_wavelength_judged(k, false)
            ||| exists|
                medium: ThermalBlooming<K::Real>,
                launch: Field<K::Real, K::Complex>,
                dz: K::Real,
                pre: March<K>,
                post: March<K>,
                u: Plane<K::Complex>,
            | #[trigger]
                is_blooming_abandoned(k, p, air, medium, launch, dz, pre, post, u, e)
        },
        Err(BloomingCaseError::Table(_)) => false,
    }
}

/// What [`run_blooming`] may return.
pub open spec fn is_blooming_run<K: BloomingCase, T: AirScale + Tabulation<Real = K::Real>>(
    k: K,
    scale: T,
    table: AirTable<K::Real>,
    p: BloomingParams<K::Real>,
    r: Result<BloomingRun<K::Real>, BloomingCaseError<K::Real>>,
) -> bool {
    ||| r matches Err(BloomingCaseError::Table(e)) && is_run_air::<K, T>(scale, table, p, Err(e))
    ||| exists|air: AirProperties<K::Real>| #[trigger]
        is_run_air::<K, T>(scale, table, p, Ok(air)) && is_blooming_in_air(k, p, air, r)
}

/// Propagate a Gaussian beam through the air that it heats.
pub fn run_blooming<K: BloomingCase + Copy, T: AirScale + Tabulation<Real = K::Real>>(
    k: &K,
    scale: &T,
    table: &AirTable<K::Real>,
    p: &BloomingParams<K::Real>,
) -> (r: Result<BloomingRun<K::Real>, BloomingCaseError<K::Real>>)
    requires
        is_run_size(p.n as int, p.steps as int),
        is_launchable(*k, p.dx, p.wavelength, p.w0),
        table.wf(),
    ensures
        is_blooming_run(*k, *scale, *table, *p, r),
{
    let grid: Grid<K::Real> = Grid::new(k, p.n, p.dx);
    let air: AirProperties<K::Real> = match table.at(scale, p.t0, p.p0, p.wavelength) {
        Ok(air) => air,
        Err(e) => {
            proof {
                assert(is_run_air::<K, T>(*scale, *table, *p, Err(e)));
            }
            return Err(BloomingCaseError::Table(e));
        },
    };
    proof {
        let (n_t, n_p) = (crate::airprops::N_T as int, crate::airprops::N_P as int);
        let c = choose|c: crate::table::Place<K::Real>| #[trigger]
            crate::table::is_located(*scale, n_t, n_p, p.t0, p.p0, Ok(c))
                && crate::airprops::is_air(*scale, table@, c, p.wavelength, air);
        assert(crate::table::is_located(*scale, n_t, n_p, p.t0, p.p0, Ok(c)));
        assert(is_run_air::<K, T>(*scale, *table, *p, Ok(air)));
    }
    let r: Result<BloomingRun<K::Real>, BloomingCaseError<K::Real>> = bloom_in_air(k, grid, air, p);
    proof {
        assert(is_blooming_in_air(*k, *p, air, r));
    }
    r
}

/// [`run_blooming`] in a given air.
pub fn bloom_in_air<K: BloomingCase + Copy>(
    k: &K,
    grid: Grid<K::Real>,
    air: AirProperties<K::Real>,
    p: &BloomingParams<K::Real>,
) -> (r: Result<BloomingRun<K::Real>, BloomingCaseError<K::Real>>)
    requires
        is_run_size(p.n as int, p.steps as int),
        is_launchable(*k, p.dx, p.wavelength, p.w0),
        grid == (Grid { n: p.n, dx: p.dx }),
    ensures
        is_blooming_in_air(*k, *p, air, r),
{
    let n_phi: K::Real = k.distortion(*p, air);
    let peclet: K::Real = k.peclet(air, p.wind, p.w0);
    let delta_t_sat: K::Real = k.saturated_rise(*p, air);
    let mut field: Field<K::Real, K::Complex> = Field::gaussian(k, grid, p.wavelength, p.w0);
    let ghost launch = field;
    let power: K::Real = field.power(k);
    proof {
        assert(is_launch(*k, grid, p.wavelength, p.w0, launch));
        assert(is_power(*k, launch.u@, p.n as nat, power));
    }
    let built: Result<ThermalBlooming<K::Real>, BloomingError<K::Real>> = ThermalBlooming::new(
        k,
        grid,
        air,
        p.alpha_abs,
        p.wind,
        p.power,
        power,
        p.w0,
        p.t0,
    );
    proof {
        assert(is_run_medium(*k, *p, air, launch, built));
    }
    let medium: ThermalBlooming<K::Real> = match built {
        Ok(medium) => medium,
        Err(e) => {
            return Err(BloomingCaseError::Medium(e));
        },
    };
    let mut prop: Propagator<K> = match Propagator::new(*k, p.n) {
        Ok(prop) => prop,
        Err(_) => {
            return Err(BloomingCaseError::Propagate(PropagateError::BadWavelength));
        },
    };
    let ghost pre = prop@;
    let dz: K::Real = k.slab(p.z, p.steps);
    let recorded: Result<BeamRecord<K::Real>, PropagateError<BloomingRefusal>> = record_run(
        k,
        &mut prop,
        &mut field,
        &medium,
        dz,
        p.steps,
        p.frames,
    );
    match recorded {
        Err(e) => {
            proof {
                assert(is_blooming_abandoned(
                    *k,
                    *p,
                    air,
                    medium,
                    launch,
                    dz,
                    pre,
                    prop@,
                    field.u,
                    e,
                ));
            }
            Err(BloomingCaseError::Propagate(e))
        },
        Ok(record) => {
            let snapshot_z: Vec<K::Real> = distances(k, dz, record.snapshot_steps.as_slice());
            let pair: Option<(K::Real, K::Real)> = centroid(k, &field);
            let centroid_x: Option<K::Real> = match pair {
                Some((cx, _)) => Some(cx),
                None => None,
            };
            proof {
                let total = choose|total: K::Real| #[trigger]
                    is_centroid(*k, field.u@, p.n as nat, total, pair);
                assert(is_centroid(*k, field.u@, p.n as nat, total, pair));
                assert(is_centroid_x(*k, p.n as int, field.u, centroid_x));
            }
            let run: BloomingRun<K::Real> = BloomingRun {
                grid,
                dz,
                n_phi,
                peclet,
                delta_t_sat,
                record,
                snapshot_z,
                centroid_x,
            };
            proof {
                assert(is_blooming_done(*k, *p, air, medium, launch, pre, prop@, field.u, run));
            }
            Ok(run)
        },
    }
}

/// A medium with a length of its own.
pub trait Path<K: Optics>: Medium<K> {
    /// Thickness of a slab.
    fn dz(&self, optics: &K) -> K::Real;

    /// Number of slabs.
    fn n_slabs(&self, optics: &K) -> usize;
}

/// An ensemble of beams through turbulence.
#[derive(Debug, Clone, Copy)]
pub struct TurbulenceParams<R> {
    pub n: usize,
    pub dx: R,
    pub wavelength: R,
    pub w0: R,
    pub z: R,
    /// Number of phase screens.
    pub screens: usize,
    /// Refractive-index structure constant.
    pub cn2: R,
    /// Outer scale.
    pub l0: R,
    pub realizations: usize,
    /// Master seed of the ensemble.
    pub seed: u64,
}

/// Turbulent paths, one for each member of an ensemble.
pub trait TurbulenceCase: PathCase {
    type Path: Path<Self>;

    /// The path of a member, with diffraction steps between its screens.
    fn path(&self, p: TurbulenceParams<Self::Real>, substeps: usize, member: u64) -> Self::Path;
}

/// Diffraction steps that a path is given in all.
pub const PATH_STEPS: usize = 240;

/// Diffraction steps between two screens.
pub open spec fn spec_substeps(screens: int) -> int {
    if PATH_STEPS as int / screens > 1 {
        PATH_STEPS as int / screens
    } else {
        1
    }
}

/// Diffraction steps between two screens: one at least.
pub fn substeps(screens: usize) -> (s: usize)
    requires
        screens > 0,
    ensures
        s == spec_substeps(screens as int),
        s >= 1,
{
    let s: usize = PATH_STEPS / screens;
    if s > 1 {
        s
    } else {
        1
    }
}

/// A member of an ensemble: the intensity at the end, the side view, and what
/// the edge absorbed.
#[derive(Debug)]
pub struct Realization<R> {
    pub frame: Plane<R>,
    pub side: Plane<R>,
    pub guard_frac: R,
}

/// Why a run through a path has no result.
#[derive(Debug, PartialEq)]
pub enum PathError<E> {
    /// The path has more slabs than a record can hold.
    TooManySlabs,
    Propagate(PropagateError<E>),
}

/// A run through a path: how it is launched, and the states that it passes.
pub struct PathWalk<K: Optics> {
    pub launch: Field<K::Real, K::Complex>,
    pub pre: March<K>,
    pub trace: Seq<(March<K>, Plane<K::Complex>)>,
    pub post: March<K>,
    pub u: Plane<K::Complex>,
}

/// A Gaussian beam goes through a path of `slabs` slabs of `dz`.
pub open spec fn is_path_walked<K: Optics, P: Path<K>>(
    k: K,
    p: TurbulenceParams<K::Real>,
    path: P,
    dz: K::Real,
    slabs: usize,
    walk: PathWalk<K>,
) -> bool {
    &&& call_ensures(<P as Path<K>>::dz, (&path, &k), dz)
    &&& call_ensures(<P as Path<K>>::n_slabs, (&path, &k), slabs)
    &&& is_launch(k, Grid { n: p.n, dx: p.dx }, p.wavelength, p.w0, walk.launch)
    &&& is_fresh(k, p.n as int, walk.pre)
    &&& is_traversal(walk.pre, walk.launch, path, dz, slabs, walk.trace, walk.post, walk.u)
}

/// A Gaussian beam does not get through a path.
pub open spec fn is_path_abandoned<K: Optics, P: Path<K>>(
    k: K,
    p: TurbulenceParams<K::Real>,
    path: P,
    dz: K::Real,
    slabs: usize,
    walk: PathWalk<K>,
    e: PropagateError<P::Refusal>,
) -> bool {
    &&& call_ensures(<P as Path<K>>::dz, (&path, &k), dz)
    &&& call_ensures(<P as Path<K>>::n_slabs, (&path, &k), slabs)
    &&& is_launch(k, Grid { n: p.n, dx: p.dx }, p.wavelength, p.w0, walk.launch)
    &&& is_fresh(k, p.n as int, walk.pre)
    &&& is_abandoned(walk.pre, walk.launch, path, dz, slabs, walk.post, walk.u, e)
}

/// What is kept of a run through a path.
pub open spec fn is_member<K: Optics>(
    k: K,
    n: int,
    walk: PathWalk<K>,
    m: Realization<K::Real>,
) -> bool {
    &&& is_intensity(k, n, walk.u, m.frame)
    &&& is_side_view(k, n, walk.trace, m.side)
    &&& exists|t: K::Real| #[trigger]
        are_fractions(k, n as nat, walk.launch.u, walk.u, walk.post.absorbed, t, m.guard_frac)
}

/// What a run through a path may return.
pub open spec fn is_realization<K: Optics, P: Path<K>>(
    k: K,
    p: TurbulenceParams<K::Real>,
    path: P,
    r: Result<Realization<K::Real>, PathError<P::Refusal>>,
) -> bool {
    match r {
        Ok(m) => exists|dz: K::Real, slabs: usize, walk: PathWalk<K>| #[trigger]
            is_path_walked(k, p, path, dz, slabs, walk) && is_member(k, p.n as int, walk, m),
        Err(PathError::TooManySlabs) => exists|slabs: usize| #[trigger]
            call_ensures(<P as Path<K>>::n_slabs, (&path, &k), slabs) && !is_run_size(
                p.n as int,
                slabs as int,
            ),
        Err(PathError::Propagate(e)) => {
            ||| e is BadWavelength && is_wavelength_judged(k, false)
            ||| exists|dz: K::Real, slabs: usize, walk: PathWalk<K>| #[trigger]
                is_path_abandoned(k, p, path, dz, slabs, walk, e)
        },
    }
}

/// Run one beam through a path.
pub fn realize<K: Optics + Copy, P: Path<K>>(
    k: &K,
    p: &TurbulenceParams<K::Real>,
    path: &P,
) -> (r: Result<Realization<K::Real>, PathError<P::Refusal>>)
    requires
        is_run_size(p.n as int, 0),
        is_launchable(*k, p.dx, p.wavelength, p.w0),
    ensures
        is_realization(*k, *p, *path, r),
{
    let grid: Grid<K::Real> = Grid::new(k, p.n, p.dx);
    let mut field: Field<K::Real, K::Complex> = Field::gaussian(k, grid, p.wavelength, p.w0);
    let ghost launch = field;
    let mut prop: Propagator<K> = match Propagator::new(*k, p.n) {
        Ok(prop) => prop,
        Err(_) => {
            return Err(PathError::Propagate(PropagateError::BadWavelength));
        },
    };
    let ghost pre = prop@;
    let dz: K::Real = path.dz(k);
    let slabs: usize = path.n_slabs(k);
    if slabs == usize::MAX {
        return Err(PathError::TooManySlabs);
    }
    match p.n.checked_mul(slabs + 1) {
        None => {
            return Err(PathError::TooManySlabs);
        },
        Some(_) => {},
    }
    let recorded: Result<BeamRecord<K::Real>, PropagateError<P::Refusal>> = record_run(
        k,
        &mut prop,
        &mut field,
        path,
        dz,
        slabs,
        1,
    );
    proof {
        assert(is_launch(*k, grid, p.wavelength, p.w0, launch));
        assert(is_fresh(*k, p.n as int, pre));
    }
    match recorded {
        Err(e) => {
            proof {
                let walk = PathWalk { launch, pre, trace: Seq::empty(), post: prop@, u: field.u };
                assert(is_path_abandoned(*k, *p, *path, dz, slabs, walk, e));
            }
            Err(PathError::Propagate(e))
        },
        Ok(record) => {
            let ghost trace = choose|trace: Seq<(March<K>, Plane<K::Complex>)>| #[trigger]
                is_traversal(pre, launch, *path, dz, slabs, trace, prop@, field.u) && is_record(
                    *k,
                    p.n as int,
                    1,
                    trace,
                    record,
                );
            let ghost transmission = record.transmission;
            let m: Realization<K::Real> = Realization {
                frame: record.final_intensity,
                side: record.side,
                guard_frac: record.guard_frac,
            };
            proof {
                let walk = PathWalk { launch, pre, trace, post: prop@, u: field.u };
                assert(is_path_walked(*k, *p, *path, dz, slabs, walk));
                assert(are_fractions(
                    *k,
                    p.n as nat,
                    launch.u,
                    field.u,
                    prop@.absorbed,
                    transmission,
                    m.guard_frac,
                ));
                assert(is_member(*k, p.n as int, walk, m));
            }
            Ok(m)
        },
    }
}

/// The result of an ensemble of beams through turbulence.
#[derive(Debug)]
pub struct TurbulenceRun<R> {
    pub grid: Grid<R>,
    /// Diffraction steps between two screens.
    pub substeps: usize,
    /// Intensity at the end, one for each member.
    pub frames: Vec<Plane<R>>,
    /// Side view, one for each member.
    pub xz_frames: Vec<Plane<R>>,
    /// The long exposure: the mean intensity at the end.
    pub longexp: Plane<R>,
    /// Mean of what the edge absorbed.
    pub guard_frac_mean: R,
}

/// `run[i]` is the sum of the first `i` values.
pub open spec fn is_total_run<K: Optics>(k: K, values: Seq<K::Real>, run: Seq<K::Real>) -> bool {
    &&& run.len() == values.len() + 1
    &&& call_ensures(K::zero, (&k,), run[0])
    &&& forall|i: int|
        #![trigger values[i]]
        0 <= i < values.len() ==> call_ensures(K::plus, (&k, run[i], values[i]), run[i + 1])
}

/// `mean` is the sum of `values`, from the first, over their number.
pub open spec fn is_mean<K: PathCase>(k: K, values: Seq<K::Real>, mean: K::Real) -> bool {
    exists|count: K::Real, run: Seq<K::Real>|
        {
            &&& #[trigger] call_ensures(K::members, (&k, values.len() as usize), count)
            &&& #[trigger] is_total_run(k, values, run)
            &&& call_ensures(K::ratio, (&k, run.last(), count), mean)
        }
}

/// The samples at one place of some arrays.
pub open spec fn samples_at<R>(frames: Seq<Plane<R>>, j: int, i: int) -> Seq<R> {
    Seq::new(frames.len(), |m: int| frames[m]@[j][i])
}

/// What the edge absorbed of some members.
pub open spec fn guards_of<R>(members: Seq<Realization<R>>) -> Seq<R> {
    Seq::new(members.len(), |m: int| members[m].guard_frac)
}

/// The mean of some numbers.
pub fn mean_of<K: PathCase>(k: &K, values: &[K::Real]) -> (mean: K::Real)
    ensures
        is_mean(*k, values@, mean),
{
    let mut sum: K::Real = k.zero();
    let ghost mut run: Seq<K::Real> = seq![sum];
    for i in 0..values.len()
        invariant
            run.last() == sum,
            is_total_run(*k, values@.subrange(0, i as int), run),
    {
        let next: K::Real = k.plus(sum, values[i]);
        proof {
            let shorter = values@.subrange(0, i as int);
            let longer = values@.subrange(0, i + 1);
            let run2 = run.push(next);
            assert forall|j: int|
                #![trigger longer[j]]
                0 <= j < longer.len() implies call_ensures(
                K::plus,
                (k, run2[j], longer[j]),
                run2[j + 1],
            ) by {
                if j < i {
                    assert(longer[j] == shorter[j]);
                }
            }
            run = run2;
        }
        sum = next;
    }
    let count: K::Real = k.members(values.len());
    proof {
        assert(values@.subrange(0, values@.len() as int) =~= values@);
        assert(is_total_run(*k, values@, run));
    }
    k.ratio(sum, count)
}

/// The sample-by-sample mean of some square arrays.
pub fn mean_frame<K: PathCase>(k: &K, frames: &[Plane<K::Real>], n: usize) -> (mean: Plane<K::Real>)
    requires
        forall|m: int|
            0 <= m < frames@.len() ==> (#[trigger] frames@[m]).wf() && frames@[m]@.len() == n
                && frames@[m].spec_width() == n,
        n * n <= usize::MAX,
    ensures
        mean.wf(),
        mean@.len() == n,
        mean.spec_width() == n,
        forall|j: int, i: int|
            0 <= j < n && 0 <= i < n ==> is_mean(
                *k,
                samples_at(frames@, j, i),
                #[trigger] mean@[j][i],
            ),
{
    let at = |j: usize, i: usize| -> (v: K::Real)
        requires
            j < n,
            i < n,
        ensures
            is_mean(*k, samples_at(frames@, j as int, i as int), v),
        { mean_at(k, frames, n, j, i) };
    Plane::from_fn(n, n, at)
}

/// The mean of some square arrays at one place.
fn mean_at<K: PathCase>(k: &K, frames: &[Plane<K::Real>], n: usize, j: usize, i: usize) -> (v: K::Real)
    requires
        forall|m: int|
            0 <= m < frames@.len() ==> (#[trigger] frames@[m]).wf() && frames@[m]@.len() == n
                && frames@[m].spec_width() == n,
        j < n,
        i < n,
    ensures
        is_mean(*k, samples_at(frames@, j as int, i as int), v),
{
    let mut values: Vec<K::Real> = Vec::with_capacity(frames.len());
    for m in 0..frames.len()
        invariant
            j < n,
            i < n,
            forall|m: int|
                0 <= m < frames@.len() ==> (#[trigger] frames@[m]).wf() && frames@[m]@.len() == n
                    && frames@[m].spec_width() == n,
            values@ == samples_at(frames@, j as int, i as int).subrange(0, m as int),
    {
        values.push(*frames[m].at(j, i));
        proof {
            let all = samples_at(frames@, j as int, i as int);
            assert(values@ =~= all.subrange(0, m + 1));
        }
    }
    proof {
        let all = samples_at(frames@, j as int, i as int);
        assert(values@ =~= all);
    }
    mean_of(k, values.as_slice())
}

/// Member `i` of an ensemble came to `r`.
pub open spec fn is_ensemble_member<K: TurbulenceCase>(
    k: K,
    p: TurbulenceParams<K::Real>,
    i: u64,
    r: Result<Realization<K::Real>, PathError<<K::Path as Medium<K>>::Refusal>>,
) -> bool {
    exists|path: K::Path| #[trigger]
        call_ensures(K::path, (&k, p, spec_substeps(p.screens as int) as usize, i), path)
            && is_realization(k, p, path, r)
}

/// The members of an ensemble.
pub open spec fn are_members<K: TurbulenceCase>(
    k: K,
    p: TurbulenceParams<K::Real>,
    results: Seq<Result<Realization<K::Real>, PathError<<K::Path as Medium<K>>::Refusal>>>,
) -> bool {
    &&& results.len() == p.realizations
    &&& forall|i: int|
        0 <= i < results.len() ==> is_ensemble_member(k, p, i as u64, #[trigger] results[i])
}

/// What an ensemble reports of its members.
pub open spec fn is_ensemble<K: PathCase>(
    k: K,
    p: TurbulenceParams<K::Real>,
    members: Seq<Realization<K::Real>>,
    run: TurbulenceRun<K::Real>,
) -> bool {
    &&& run.grid == (Grid { n: p.n, dx: p.dx })
    &&& run.substeps == spec_substeps(p.screens as int)
    &&& run.frames@ == members.map_values(|m: Realization<K::Real>| m.frame)
    &&& run.xz_frames@ == members.map_values(|m: Realization<K::Real>| m.side)
    &&& run.longexp.wf()
    &&& run.longexp@.len() == p.n
    &&& run.longexp.spec_width() == p.n
    &&& forall|j: int, i: int|
        0 <= j < p.n && 0 <= i < p.n ==> is_mean(
            k,
            samples_at(run.frames@, j, i),
            #[trigger] run.longexp@[j][i],
        )
    &&& is_mean(k, guards_of(members), run.guard_frac_mean)
}

/// What [`run_turbulence`] may return: the ensemble, or its first failure.
pub open spec fn is_turbulence_run<K: TurbulenceCase>(
    k: K,
    p: TurbulenceParams<K::Real>,
    r: Result<TurbulenceRun<K::Real>, PathError<<K::Path as Medium<K>>::Refusal>>,
) -> bool {
    exists|
        results: Seq<
            Result<Realization<K::Real>, PathError<<K::Path as Medium<K>>::Refusal>>,
        >,
    |
        {
            &&& #[trigger] are_members(k, p, results)
            &&& match r {
                Ok(run) => exists|members: Seq<Realization<K::Real>>| #[trigger]
                    is_gathered(results, Ok(members)) && is_ensemble(k, p, members, run),
                Err(e) => is_gathered(results, Err(e)),
            }
        }
}

/// What an ensemble reports of its members.
pub fn ensemble_of<K: PathCase>(
    k: &K,
    p: &TurbulenceParams<K::Real>,
    members: Vec<Realization<K::Real>>,
) -> (run: TurbulenceRun<K::Real>)
    requires
        p.screens > 0,
        is_run_size(p.n as int, 0),
        forall|m: int|
            0 <= m < members@.len() ==> (#[trigger] members@[m]).frame.wf()
                && members@[m].frame@.len() == p.n && members@[m].frame.spec_width() == p.n,
    ensures
        is_ensemble(*k, *p, members@, run),
{
    let ghost all = members@;
    let mut frames: Vec<Plane<K::Real>> = Vec::with_capacity(members.len());
    let mut xz_frames: Vec<Plane<K::Real>> = Vec::with_capacity(members.len());
    let mut guards: Vec<K::Real> = Vec::with_capacity(members.len());
    let count: usize = members.len();
    let mut rest: Vec<Realization<K::Real>> = reversed(members);
    for m in 0..count
        invariant
            count == all.len(),
            rest@.len() == count - m,
            forall|l: int| 0 <= l < count - m ==> #[trigger] rest@[l] == all[count - 1 - l],
            frames@ == all.map_values(|m: Realization<K::Real>| m.frame).subrange(0, m as int),
            xz_frames@ == all.map_values(|m: Realization<K::Real>| m.side).subrange(0, m as int),
            guards@ == guards_of(all).subrange(0, m as int),
    {
        match rest.pop() {
            Some(member) => {
                proof {
                    assert(member == all[m as int]);
                }
                frames.push(member.frame);
                xz_frames.push(member.side);
                guards.push(member.guard_frac);
            },
            None => {},
        }
        proof {
            assert(frames@ =~= all.map_values(|m: Realization<K::Real>| m.frame).subrange(
                0,
                m + 1,
            ));
            assert(xz_frames@ =~= all.map_values(|m: Realization<K::Real>| m.side).subrange(
                0,
                m + 1,
            ));
            assert(guards@ =~= guards_of(all).subrange(0, m + 1));
        }
    }
    proof {
        assert(frames@ =~= all.map_values(|m: Realization<K::Real>| m.frame));
        assert(xz_frames@ =~= all.map_values(|m: Realization<K::Real>| m.side));
        assert(guards@ =~= guards_of(all));
    }
    let longexp: Plane<K::Real> = mean_frame(k, frames.as_slice(), p.n);
    let guard_frac_mean: K::Real = mean_of(k, guards.as_slice());
    TurbulenceRun {
        grid: Grid { n: p.n, dx: p.dx },
        substeps: substeps(p.screens),
        frames,
        xz_frames,
        longexp,
        guard_frac_mean,
    }
}

/// Propagate a Gaussian beam through an ensemble of turbulent paths.
pub fn run_turbulence<K: TurbulenceCase + Copy + Sync>(k: &K, p: &TurbulenceParams<K::Real>) -> (r:
    Result<TurbulenceRun<K::Real>, PathError<<K::Path as Medium<K>>::Refusal>>) where
    K::Real: Send + Sync,
    <K::Path as Medium<K>>::Refusal: Send,

    requires
        is_run_size(p.n as int, 0),
        is_launchable(*k, p.dx, p.wavelength, p.w0),
        p.screens > 0,
        p.realizations > 0,
    ensures
        is_turbulence_run(*k, *p, r),
{
    let between: usize = substeps(p.screens);
    let member = |i: u64| -> (r: Result<
        Realization<K::Real>,
        PathError<<K::Path as Medium<K>>::Refusal>,
    >)
        ensures
            is_ensemble_member(*k, *p, i, r),
        {
            let path: K::Path = k.path(*p, between, i);
            realize(k, p, &path)
        };
    let results: Vec<
        Result<Realization<K::Real>, PathError<<K::Path as Medium<K>>::Refusal>>,
    > = seeded_ensemble(p.realizations, member);
    let ghost all = results@;
    proof {
        assert(are_members(*k, *p, all));
    }
    match gather(results) {
        Err(e) => Err(e),
        Ok(members) => {
            let ghost kept = members@;
            proof {
                assert forall|m: int| 0 <= m < kept.len() implies (#[trigger] kept[m]).frame.wf()
                    && kept[m].frame@.len() == p.n && kept[m].frame.spec_width() == p.n by {
                    assert(is_ensemble_member(*k, *p, m as u64, all[m]));
                }
            }
            let run: TurbulenceRun<K::Real> = ensemble_of(k, p, members);
            proof {
                assert(is_gathered(all, Ok(kept)) && is_ensemble(*k, *p, kept, run));
            }
            Ok(run)
        },
    }
}

/// A Gaussian beam to be launched.
#[derive(Debug, Clone, Copy)]
pub struct Beam<R> {
    pub grid: Grid<R>,
    pub wavelength: R,
    pub w0: R,
}

/// A beam at the end of a medium: the field, the power that was launched and
/// what the edge absorbed.
#[derive(Debug)]
pub struct Arrival<R, C> {
    pub field: Field<R, C>,
    pub p_in: R,
    pub absorbed: R,
}

/// How a beam is launched and what becomes of it.
pub struct Passage<K: Optics> {
    pub launch: Field<K::Real, K::Complex>,
    pub pre: March<K>,
    pub post: March<K>,
    pub u: Plane<K::Complex>,
}

/// A beam goes through a medium and arrives.
pub open spec fn is_arrival<K: Optics, M: Medium<K>>(
    k: K,
    b: Beam<K::Real>,
    medium: M,
    dz: K::Real,
    steps: usize,
    way: Passage<K>,
    a: Arrival<K::Real, K::Complex>,
) -> bool {
    &&& is_launch(k, b.grid, b.wavelength, b.w0, way.launch)
    &&& is_fresh(k, b.grid.n as int, way.pre)
    &&& exists|trace: Seq<(March<K>, Plane<K::Complex>)>| #[trigger]
        is_traversal(way.pre, way.launch, medium, dz, steps, trace, way.post, way.u)
    &&& a.field == (Field { u: way.u, ..way.launch })
    &&& a.field.valid()
    &&& is_power(k, way.launch.u@, b.grid.n as nat, a.p_in)
    &&& a.absorbed == way.post.absorbed
}

pub open spec fn has_arrived<K: Optics, M: Medium<K>>(
    k: K,
    b: Beam<K::Real>,
    medium: M,
    dz: K::Real,
    steps: usize,
    a: Arrival<K::Real, K::Complex>,
) -> bool {
    exists|way: Passage<K>| #[trigger] is_arrival(k, b, medium, dz, steps, way, a)
}

/// A beam does not get through a medium.
pub open spec fn is_lost<K: Optics, M: Medium<K>>(
    k: K,
    b: Beam<K::Real>,
    medium: M,
    dz: K::Real,
    steps: usize,
    way: Passage<K>,
    e: PropagateError<M::Refusal>,
) -> bool {
    &&& is_launch(k, b.grid, b.wavelength, b.w0, way.launch)
    &&& is_fresh(k, b.grid.n as int, way.pre)
    &&& is_abandoned(way.pre, way.launch, medium, dz, steps, way.post, way.u, e)
}

/// What sending a beam through a medium may come to.
pub open spec fn is_sent<K: Optics, M: Medium<K>>(
    k: K,
    b: Beam<K::Real>,
    medium: M,
    dz: K::Real,
    steps: usize,
    r: Result<Arrival<K::Real, K::Complex>, PropagateError<M::Refusal>>,
) -> bool {
    match r {
        Ok(a) => has_arrived(k, b, medium, dz, steps, a),
        Err(e) => {
            ||| e is BadWavelength && is_wavelength_judged(k, false)
            ||| exists|way: Passage<K>| #[trigger] is_lost(k, b, medium, dz, steps, way, e)
        },
    }
}

/// Send a beam through a medium.
pub fn send<K: Optics + Copy, M: Medium<K>>(
    k: &K,
    b: &Beam<K::Real>,
    medium: &M,
    dz: K::Real,
    steps: usize,
) -> (r: Result<Arrival<K::Real, K::Complex>, PropagateError<M::Refusal>>)
    requires
        is_run_size(b.grid.n as int, 0),
        is_launchable(*k, b.grid.dx, b.wavelength, b.w0),
    ensures
        is_sent(*k, *b, *medium, dz, steps, r),
{
    let n: usize = b.grid.n;
    let mut field: Field<K::Real, K::Complex> = Field::gaussian(k, b.grid, b.wavelength, b.w0);
    let ghost launch = field;
    let p_in: K::Real = field.power(k);
    let mut prop: Propagator<K> = match Propagator::new(*k, n) {
        Ok(prop) => prop,
        Err(_) => {
            return Err(PropagateError::BadWavelength);
        },
    };
    let ghost pre = prop@;
    proof {
        assert(is_launch(*k, b.grid, b.wavelength, b.w0, launch));
        assert(is_fresh(*k, n as int, pre));
    }
    let on_step = |_i: usize, _f: &Field<K::Real, K::Complex>| -> (seen: bool) { true };
    let run: Result<Vec<bool>, PropagateError<M::Refusal>> = prop.propagate(
        &mut field,
        medium,
        dz,
        0,
        steps,
        on_step,
    );
    let ghost way = Passage { launch, pre, post: prop@, u: field.u };
    match run {
        Err(e) => {
            proof {
                assert(is_abandoned(pre, launch, *medium, dz, steps, prop@, field.u, e));
                assert(is_lost(*k, *b, *medium, dz, steps, way, e));
            }
            Err(e)
        },
        Ok(seen) => {
            proof {
                let trace = choose|trace: Seq<(March<K>, Plane<K::Complex>)>|
                    {
                        &&& #[trigger] is_run(pre, *medium, dz, 0, launch.u, trace)
                        &&& trace.len() == steps + 1
                        &&& trace.last() == (prop@, field.u)
                        &&& are_observed::<K, bool, _>(
                            on_step,
                            0,
                            launch.grid,
                            launch.wavelength,
                            trace,
                            seen@,
                        )
                    };
                assert(is_traversal(pre, launch, *medium, dz, steps, trace, prop@, field.u));
            }
            let absorbed: K::Real = prop.guard_absorbed();
            let a: Arrival<K::Real, K::Complex> = Arrival { field, p_in, absorbed };
            proof {
                assert(is_arrival(*k, *b, *medium, dz, steps, way, a));
                assert(has_arrived(*k, *b, *medium, dz, steps, a));
            }
            Ok(a)
        },
    }
}

/// Two realizations hold the same numbers.
pub open spec fn is_same_realization<R>(a: Realization<R>, b: Realization<R>) -> bool {
    &&& a.frame@ == b.frame@
    &&& a.side@ == b.side@
    &&& a.guard_frac == b.guard_frac
}

/// What a member comes to, and a mean, are functions of their arguments.
pub open spec fn realizes_alike<K: TurbulenceCase>(k: K, p: TurbulenceParams<K::Real>) -> bool {
    &&& forall|i: u64, a: Realization<K::Real>, b: Realization<K::Real>|
        #![trigger is_ensemble_member(k, p, i, Ok(a)), is_ensemble_member(k, p, i, Ok(b))]
        is_ensemble_member(k, p, i, Ok(a)) && is_ensemble_member(k, p, i, Ok(b))
            ==> is_same_realization(a, b)
    &&& forall|values: Seq<K::Real>, a: K::Real, b: K::Real| #[trigger]
        is_mean(k, values, a) && #[trigger] is_mean(k, values, b) ==> a == b
}

/// Equal members give equal runs: the same numbers in every member, in the long
/// exposure and in what the edge absorbed.
pub(crate) proof fn lemma_equal_members_give_equal_runs<K: TurbulenceCase>(
    k: K,
    p: TurbulenceParams<K::Real>,
    a: TurbulenceRun<K::Real>,
    b: TurbulenceRun<K::Real>,
)
    requires
        is_turbulence_run(k, p, Ok(a)),
        is_turbulence_run(k, p, Ok(b)),
        realizes_alike(k, p),
    ensures
        a.grid == b.grid,
        a.substeps == b.substeps,
        a.frames@.len() == b.frames@.len() == p.realizations,
        a.xz_frames@.len() == b.xz_frames@.len() == p.realizations,
        forall|m: int|
            0 <= m < p.realizations ==> (#[trigger] a.frames@[m])@ == b.frames@[m]@,
        forall|m: int|
            0 <= m < p.realizations ==> (#[trigger] a.xz_frames@[m])@ == b.xz_frames@[m]@,
        a.longexp@ == b.longexp@,
        a.guard_frac_mean == b.guard_frac_mean,
{
    let r = choose|
        results: Seq<
            Result<Realization<K::Real>, PathError<<K::Path as Medium<K>>::Refusal>>,
        >,
    |
        {
            &&& #[trigger] are_members(k, p, results)
            &&& exists|members: Seq<Realization<K::Real>>| #[trigger]
                is_gathered(results, Ok(members)) && is_ensemble(k, p, members, a)
        };
    let s = choose|
        results: Seq<
            Result<Realization<K::Real>, PathError<<K::Path as Medium<K>>::Refusal>>,
        >,
    |
        {
            &&& #[trigger] are_members(k, p, results)
            &&& exists|members: Seq<Realization<K::Real>>| #[trigger]
                is_gathered(results, Ok(members)) && is_ensemble(k, p, members, b)
        };
    let x = choose|members: Seq<Realization<K::Real>>| #[trigger]
        is_gathered(r, Ok(members)) && is_ensemble(k, p, members, a);
    let y = choose|members: Seq<Realization<K::Real>>| #[trigger]
        is_gathered(s, Ok(members)) && is_ensemble(k, p, members, b);
    assert forall|m: int| 0 <= m < p.realizations implies is_same_realization(
        #[trigger] x[m],
        y[m],
    ) by {
        assert(r[m] == Ok::<_, PathError<<K::Path as Medium<K>>::Refusal>>(x[m]));
        assert(s[m] == Ok::<_, PathError<<K::Path as Medium<K>>::Refusal>>(y[m]));
        assert(is_ensemble_member(k, p, m as u64, r[m]));
        assert(is_ensemble_member(k, p, m as u64, s[m]));
    }
    assert forall|m: int| 0 <= m < p.realizations implies (#[trigger] a.frames@[m])@
        == b.frames@[m]@ by {
        assert(is_same_realization(x[m], y[m]));
    }
    assert forall|m: int| 0 <= m < p.realizations implies (#[trigger] a.xz_frames@[m])@
        == b.xz_frames@[m]@ by {
        assert(is_same_realization(x[m], y[m]));
    }
    assert forall|j: int| 0 <= j < p.n implies a.longexp@[j] == b.longexp@[j] by {
        assert forall|i: int| 0 <= i < p.n implies a.longexp@[j][i] == b.longexp@[j][i] by {
            assert(samples_at(a.frames@, j, i) =~= samples_at(b.frames@, j, i));
            assert(is_mean(k, samples_at(a.frames@, j, i), a.longexp@[j][i]));
            assert(is_mean(k, samples_at(b.frames@, j, i), b.longexp@[j][i]));
        }
        assert(a.longexp@[j] =~= b.longexp@[j]);
    }
    assert(a.longexp@ =~= b.longexp@);
    assert(guards_of(x) =~= guards_of(y)) by {
        assert forall|m: int| 0 <= m < p.realizations implies x[m].guard_frac
            == y[m].guard_frac by {
            assert(is_same_realization(x[m], y[m]));
        }
    }
}

} // verus!

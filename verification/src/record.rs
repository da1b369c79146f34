//! What the parts of a record say of each other.
//!
//! A record shows one run in several ways: the whole intensity after some of the steps,
//! its central slice after every step, and the powers at the two ends. Where they show
//! the same thing they agree.
use crate::airprops::AirProperties;
use crate::algebra::lemma_commutes;
use crate::blooming::ThermalBlooming;
use crate::cases::{
    are_distances, as_ints, is_arrival, is_blooming_done, is_blooming_in_air, is_fresh,
    is_propagate_done, is_propagate_run, is_record, is_recorded_run, is_traversal, lemma_schedule,
    spec_frame_every, Arrival, Beam, BeamRecord, BloomingCase, BloomingParams, BloomingRun, Passage,
    PathCase, PropagateParams, PropagateRun,
};
use crate::exposure::{law_power_is_the_total_intensity, measures_power};
use crate::field::{is_power, Field};
use crate::medium::{Haze, Medium, UniformExtinction};
use crate::optics::Optics;
use crate::plane::{is_fold, is_fold_run, Plane};
use crate::propagate::{
    adds_moments, is_centroid, is_intensity, is_run, is_square, is_step_at,
    law_guard_band_accounts_for_the_deficit, loses_at_the_edge_only, March,
};
use crate::sums::{lemma_fold_adds, lemma_plane_sums_agree, plane_sum, total_of};
use crate::transparency::{counts_reproducibly, lemma_same_samples};
use vstd::prelude::*;

verus! {

/// The trace of a recorded run.
pub(crate) proof fn lemma_trace_of<K: Optics, M: Medium<K>>(
    k: K,
    pre: March<K>,
    field: Field<K::Real, K::Complex>,
    medium: M,
    dz: K::Real,
    steps: usize,
    frames: usize,
    post: March<K>,
    u: Plane<K::Complex>,
    rec: BeamRecord<K::Real>,
) -> (trace: Seq<(March<K>, Plane<K::Complex>)>)
    requires
        is_recorded_run(k, pre, field, medium, dz, steps, frames, post, u, Ok(rec)),
    ensures
        is_traversal(pre, field, medium, dz, steps, trace, post, u),
        is_record(k, field.grid.n as int, frames as int, trace, rec),
        rec.snapshot_steps@.len() > 0,
        rec.snapshot_steps@[0] == 0,
        rec.snapshot_steps@.last() == steps,
        rec.snapshots@.len() == rec.snapshot_steps@.len(),
        forall|m: int|
            0 <= m < rec.snapshot_steps@.len() ==> 0 <= #[trigger] rec.snapshot_steps@[m] <= steps,
        forall|a: int, b: int|
            0 <= a < b < rec.snapshot_steps@.len() ==> #[trigger] rec.snapshot_steps@[a]
                < #[trigger] rec.snapshot_steps@[b],
{
    let trace = choose|trace: Seq<(March<K>, Plane<K::Complex>)>| #[trigger]
        is_traversal(pre, field, medium, dz, steps, trace, post, u) && is_record(
            k,
            field.grid.n as int,
            frames as int,
            trace,
            rec,
        );
    let every = spec_frame_every(steps as int, frames as int);
    lemma_schedule(steps as int, every, steps as int);
    let kept = as_ints(rec.snapshot_steps@);
    assert forall|m: int| 0 <= m < kept.len() implies 0 <= #[trigger] rec.snapshot_steps@[m]
        <= steps by {
        assert(kept[m] == rec.snapshot_steps@[m]);
    }
    assert forall|a: int, b: int| 0 <= a < b < kept.len() implies #[trigger] rec.snapshot_steps@[a]
        < #[trigger] rec.snapshot_steps@[b] by {
        assert(kept[a] == rec.snapshot_steps@[a] && kept[b] == rec.snapshot_steps@[b]);
    }
    assert(kept.last() == rec.snapshot_steps@.last());
    assert(kept[0] == rec.snapshot_steps@[0]);
    trace
}

/// A record agrees with itself: the first intensity that is kept is that of the launch,
/// the last is that of the end, and at each kept step the side view has the central row
/// of the intensity, over the middle half of the grid.
pub proof fn law_record_agrees_with_itself<K: Optics, M: Medium<K>>(
    k: K,
    pre: March<K>,
    field: Field<K::Real, K::Complex>,
    medium: M,
    dz: K::Real,
    steps: usize,
    frames: usize,
    post: March<K>,
    u: Plane<K::Complex>,
    rec: BeamRecord<K::Real>,
)
    requires
        is_recorded_run(k, pre, field, medium, dz, steps, frames, post, u, Ok(rec)),
        counts_reproducibly(k),
        field.grid.n > 0,
    ensures
        rec.snapshots@.len() == rec.snapshot_steps@.len() > 0,
        rec.snapshot_steps@[0] == 0,
        rec.snapshot_steps@.last() == steps,
        is_intensity(k, field.grid.n as int, field.u, rec.snapshots@[0]),
        is_intensity(k, field.grid.n as int, u, rec.final_intensity),
        rec.snapshots@.last()@ == rec.final_intensity@,
        rec.side@.len() == 3 * field.grid.n as int / 4 - field.grid.n as int / 4,
        rec.side.spec_width() == steps + 1,
        forall|m: int, x: int|
            0 <= m < rec.snapshots@.len() && 0 <= x < rec.side@.len()
                ==> #[trigger] rec.snapshots@[m]@[field.grid.n as int / 2][field.grid.n as int / 4
                + x] == rec.side@[x][rec.snapshot_steps@[m] as int],
{
    let n = field.grid.n as int;
    let trace = lemma_trace_of(k, pre, field, medium, dz, steps, frames, post, u, rec);
    let kept = as_ints(rec.snapshot_steps@);
    let last = rec.snapshots@.len() - 1;
    assert(is_intensity(k, n, trace[kept[0]].1, rec.snapshots@[0]));
    assert(is_intensity(k, n, trace[kept[last]].1, rec.snapshots@[last]));
    assert(kept[last] == steps);
    assert(rec.snapshots@.last()@ == rec.final_intensity@) by {
        reveal(counts_reproducibly);
        let (a, b) = (rec.snapshots@[last], rec.final_intensity);
        assert forall|j: int, i: int| 0 <= j < n && 0 <= i < n implies #[trigger] a@[j][i]
            == b@[j][i] by {
            assert(call_ensures(K::intensity, (&k, u@[j][i]), a@[j][i]));
            assert(call_ensures(K::intensity, (&k, u@[j][i]), b@[j][i]));
        }
        lemma_same_samples(a, b, n);
    }
    assert forall|m: int, x: int|
        0 <= m < rec.snapshots@.len() && 0 <= x < rec.side@.len() implies
        #[trigger] rec.snapshots@[m]@[n / 2][n / 4 + x]
        == rec.side@[x][rec.snapshot_steps@[m] as int] by {
        assert(is_intensity(k, n, trace[kept[m]].1, rec.snapshots@[m]));
        let z = rec.snapshot_steps@[m] as int;
        assert(kept[m] == z);
        assert(call_ensures(K::intensity, (&k, trace[z].1@[n / 2][n / 4 + x]), rec.side@[x][z]));
        assert(call_ensures(
            K::intensity,
            (&k, trace[z].1@[n / 2][n / 4 + x]),
            rec.snapshots@[m]@[n / 2][n / 4 + x],
        ));
        reveal(counts_reproducibly);
    }
}

/// The transmission is the total of the last intensity over that of the first, and the
/// guard fraction is what the edge absorbed over the launched power.
pub proof fn law_fractions_are_of_the_launched_power<K: Optics, M: Medium<K>>(
    k: K,
    pre: March<K>,
    field: Field<K::Real, K::Complex>,
    medium: M,
    dz: K::Real,
    steps: usize,
    frames: usize,
    post: March<K>,
    u: Plane<K::Complex>,
    rec: BeamRecord<K::Real>,
    worth: spec_fn(K::Real) -> real,
    unit: real,
)
    requires
        is_recorded_run(k, pre, field, medium, dz, steps, frames, post, u, Ok(rec)),
        counts_reproducibly(k),
        measures_power(k, worth, unit),
        field.valid(),
        u@.len() == field.grid.n,
        unit * total_of(worth, rec.snapshots@[0]@, field.grid.n as nat) != 0real,
    ensures
        worth(rec.transmission) * total_of(worth, rec.snapshots@[0]@, field.grid.n as nat)
            == total_of(worth, rec.final_intensity@, field.grid.n as nat),
        worth(rec.guard_frac) * (unit * total_of(
            worth,
            rec.snapshots@[0]@,
            field.grid.n as nat,
        )) == worth(post.absorbed),
{
    let n = field.grid.n as nat;
    let trace = lemma_trace_of(k, pre, field, medium, dz, steps, frames, post, u, rec);
    law_record_agrees_with_itself(k, pre, field, medium, dz, steps, frames, post, u, rec);
    let (p0, p1) = choose|p0: K::Real, p1: K::Real|
        {
            &&& #[trigger] is_power(k, trace[0].1@, n, p0)
            &&& #[trigger] is_power(k, trace.last().1@, n, p1)
            &&& call_ensures(K::ratio, (&k, p1, p0), rec.transmission)
            &&& call_ensures(K::ratio, (&k, trace.last().0.absorbed, p0), rec.guard_frac)
        };
    law_power_is_the_total_intensity(k, n, field.u, rec.snapshots@[0], p0, worth, unit);
    law_power_is_the_total_intensity(k, n, u, rec.final_intensity, p1, worth, unit);
    let (a, b) = (
        total_of(worth, rec.snapshots@[0]@, n),
        total_of(worth, rec.final_intensity@, n),
    );
    reveal(measures_power);
    let t = worth(rec.transmission);
    assert(t * a == b) by (nonlinear_arith)
        requires
            t * (unit * a) == unit * b,
            unit * a != 0real,
    ;
}

/// Where only the edge takes power, what is transmitted and what the edge absorbed make
/// up the whole.
pub proof fn law_lossless_fractions_make_up_the_whole<K: Optics, M: Medium<K>>(
    k: K,
    pre: March<K>,
    field: Field<K::Real, K::Complex>,
    medium: M,
    dz: K::Real,
    steps: usize,
    frames: usize,
    post: March<K>,
    u: Plane<K::Complex>,
    rec: BeamRecord<K::Real>,
    size: spec_fn(Seq<Seq<K::Complex>>) -> real,
    worth: spec_fn(K::Real) -> real,
    unit: real,
)
    requires
        is_recorded_run(k, pre, field, medium, dz, steps, frames, post, u, Ok(rec)),
        is_fresh(k, field.grid.n as int, pre),
        measures_power(k, worth, unit),
        field.valid(),
        loses_at_the_edge_only(k, field.grid.n as nat, medium, dz, size, worth),
        size(field.u@) != 0real,
    ensures
        worth(rec.transmission) + worth(rec.guard_frac) == 1real,
{
    let n = field.grid.n as nat;
    let trace = lemma_trace_of(k, pre, field, medium, dz, steps, frames, post, u, rec);
    let (p0, p1) = choose|p0: K::Real, p1: K::Real|
        {
            &&& #[trigger] is_power(k, trace[0].1@, n, p0)
            &&& #[trigger] is_power(k, trace.last().1@, n, p1)
            &&& call_ensures(K::ratio, (&k, p1, p0), rec.transmission)
            &&& call_ensures(K::ratio, (&k, trace.last().0.absorbed, p0), rec.guard_frac)
        };
    assert(worth(p0) == size(field.u@) && worth(p1) == size(u@));
    law_guard_band_accounts_for_the_deficit(pre, medium, dz, 0, field.u, trace, size, worth);
    reveal(measures_power);
    let (t, g, w) = (worth(rec.transmission), worth(rec.guard_frac), worth(p0));
    assert(t + g == 1real) by (nonlinear_arith)
        requires
            t * w + g * w == w,
            w != 0real,
    ;
}

/// A beam that loses nothing but at the edge arrives without what the edge took: what it
/// was launched with, less what is reported as absorbed, is what it has left.
pub proof fn law_arrival_lacks_what_the_edge_took<K: Optics, M: Medium<K>>(
    k: K,
    b: Beam<K::Real>,
    medium: M,
    dz: K::Real,
    steps: usize,
    way: Passage<K>,
    a: Arrival<K::Real, K::Complex>,
    size: spec_fn(Seq<Seq<K::Complex>>) -> real,
    worth: spec_fn(K::Real) -> real,
    unit: real,
    left: K::Real,
)
    requires
        is_arrival(k, b, medium, dz, steps, way, a),
        measures_power(k, worth, unit),
        loses_at_the_edge_only(k, b.grid.n as nat, medium, dz, size, worth),
        is_power(k, a.field.u@, b.grid.n as nat, left),
    ensures
        worth(a.p_in) - worth(a.absorbed) == worth(left),
{
    let trace = choose|trace: Seq<(March<K>, Plane<K::Complex>)>| #[trigger]
        is_traversal(way.pre, way.launch, medium, dz, steps, trace, way.post, way.u);
    assert(worth(a.p_in) == size(way.launch.u@) && worth(left) == size(way.u@));
    law_guard_band_accounts_for_the_deficit(
        way.pre,
        medium,
        dz,
        0,
        way.launch.u,
        trace,
        size,
        worth,
    );
    reveal(measures_power);
}

/// Distances along a path are exact.
pub open spec fn paces_exactly<K: PathCase>(k: K, worth: spec_fn(K::Real) -> real) -> bool {
    &&& forall|z: K::Real, n: usize, dz: K::Real| #[trigger]
        call_ensures(K::slab, (&k, z, n), dz) ==> worth(dz) * (n as real) == worth(z)
    &&& forall|n: usize, dz: K::Real, z: K::Real| #[trigger]
        call_ensures(K::distance, (&k, n, dz), z) ==> worth(z) == (n as real) * worth(dz)
}

/// The distances of a run's snapshots are the shares of its path that their steps are of
/// all steps: the first is nothing, and the last is the whole path.
pub proof fn law_snapshots_are_placed_along_the_path<K: PathCase + Haze>(
    k: K,
    p: PropagateParams<K::Real>,
    run: PropagateRun<K::Real>,
    worth: spec_fn(K::Real) -> real,
    m: int,
)
    requires
        is_propagate_run(k, p, Ok(run)),
        paces_exactly(k, worth),
        0 <= m < run.snapshot_z@.len(),
    ensures
        run.snapshot_z@.len() == run.record.snapshot_steps@.len() > 0,
        p.z matches Some(z) ==> run.z_total == z,
        worth(run.dz) * (p.steps as real) == worth(run.z_total),
        worth(run.snapshot_z@[m]) * (p.steps as real) == (run.record.snapshot_steps@[m] as real)
            * worth(run.z_total),
        worth(run.snapshot_z@[0]) == 0real,
        p.steps > 0 ==> worth(run.snapshot_z@.last()) == worth(run.z_total),
{
    let (medium, launch, pre, post, u) = choose|
        medium: UniformExtinction<K::Real>,
        launch: Field<K::Real, K::Complex>,
        pre: March<K>,
        post: March<K>,
        u: Plane<K::Complex>,
    | #[trigger]
        is_propagate_done(k, p, medium, launch, pre, post, u, run);
    let trace = lemma_trace_of(
        k,
        pre,
        launch,
        medium,
        run.dz,
        p.steps,
        p.frames,
        post,
        u,
        run.record,
    );
    lemma_distances(k, run.z_total, run.dz, p.steps, run.record.snapshot_steps@, run.snapshot_z@, worth, m);
}

proof fn lemma_distances<K: PathCase>(
    k: K,
    z: K::Real,
    dz: K::Real,
    steps: usize,
    kept: Seq<usize>,
    zs: Seq<K::Real>,
    worth: spec_fn(K::Real) -> real,
    m: int,
)
    requires
        paces_exactly(k, worth),
        call_ensures(K::slab, (&k, z, steps), dz),
        are_distances(k, dz, kept, zs),
        kept.len() > 0,
        kept[0] == 0,
        kept.last() == steps,
        0 <= m < zs.len(),
    ensures
        worth(dz) * (steps as real) == worth(z),
        worth(zs[m]) * (steps as real) == (kept[m] as real) * worth(z),
        worth(zs[0]) == 0real,
        steps > 0 ==> worth(zs.last()) == worth(z),
{
    let last = zs.len() - 1;
    assert(call_ensures(K::distance, (&k, kept[m], dz), zs[m]));
    assert(call_ensures(K::distance, (&k, kept[0], dz), zs[0]));
    assert(call_ensures(K::distance, (&k, kept[last], dz), zs[last]));
    let (w, s, c) = (worth(dz), steps as real, kept[m] as real);
    assert((c * w) * s == c * (w * s)) by (nonlinear_arith);
    assert(0real * w == 0real) by (nonlinear_arith);
    lemma_commutes(w, s);
}

/// The same of a blooming run.
pub proof fn law_blooming_snapshots_are_placed_along_the_path<K: BloomingCase>(
    k: K,
    p: BloomingParams<K::Real>,
    air: AirProperties<K::Real>,
    run: BloomingRun<K::Real>,
    worth: spec_fn(K::Real) -> real,
    m: int,
)
    requires
        is_blooming_in_air(k, p, air, Ok(run)),
        paces_exactly(k, worth),
        0 <= m < run.snapshot_z@.len(),
    ensures
        run.snapshot_z@.len() == run.record.snapshot_steps@.len() > 0,
        worth(run.dz) * (p.steps as real) == worth(p.z),
        worth(run.snapshot_z@[m]) * (p.steps as real) == (run.record.snapshot_steps@[m] as real)
            * worth(p.z),
        worth(run.snapshot_z@[0]) == 0real,
        p.steps > 0 ==> worth(run.snapshot_z@.last()) == worth(p.z),
{
    let (medium, launch, pre, post, u) = choose|
        medium: ThermalBlooming<K::Real>,
        launch: Field<K::Real, K::Complex>,
        pre: March<K>,
        post: March<K>,
        u: Plane<K::Complex>,
    | #[trigger]
        is_blooming_done(k, p, air, medium, launch, pre, post, u, run);
    let trace = lemma_trace_of(
        k,
        pre,
        launch,
        medium,
        run.dz,
        p.steps,
        p.frames,
        post,
        u,
        run.record,
    );
    lemma_distances(k, p.z, run.dz, p.steps, run.record.snapshot_steps@, run.snapshot_z@, worth, m);
}

/// Moments are exact: an intensity counts at `place` of its sample along an axis.
#[verifier::opaque]
pub open spec fn weighs_places<K: Optics>(
    k: K,
    worth: spec_fn(K::Real) -> real,
    place: spec_fn(int) -> real,
) -> bool {
    &&& forall|z: K::Real| #[trigger] call_ensures(K::zero, (&k,), z) ==> worth(z) == 0real
    &&& forall|a: K::Real, b: K::Real, c: K::Real| #[trigger]
        call_ensures(K::plus, (&k, a, b), c) ==> worth(c) == worth(a) + worth(b)
    &&& forall|m: K::Real, p: K::Real, i: usize, next: K::Real| #[trigger]
        call_ensures(K::add_moment, (&k, m, p, i), next) ==> worth(next) == worth(m) + worth(p)
            * place(i as int)
    &&& forall|a: K::Real, b: K::Real, c: K::Real| #[trigger]
        call_ensures(K::ratio, (&k, a, b), c) && worth(b) != 0real ==> worth(c) * worth(b)
            == worth(a)
    &&& forall|t: K::Real| #[trigger]
        call_ensures(K::has_power, (&k, t), true) ==> worth(t) != 0real
}

/// The centroid is where the intensity balances: along x each sample counts at the place
/// of its column, and along y at the place of its row.
pub proof fn law_centroid_balances_the_intensity<K: Optics>(
    k: K,
    n: nat,
    u: Plane<K::Complex>,
    p: Plane<K::Real>,
    total: K::Real,
    centre: (K::Real, K::Real),
    worth: spec_fn(K::Real) -> real,
    place: spec_fn(int) -> real,
)
    requires
        counts_reproducibly(k),
        weighs_places(k, worth, place),
        u@.len() == n,
        n <= usize::MAX,
        is_intensity(k, n as int, u, p),
        is_centroid(k, u@, n, total, Some(centre)),
    ensures
        worth(total) == total_of(worth, p@, n),
        worth(total) != 0real,
        worth(centre.0) * worth(total) == plane_sum(
            |j: int, i: int| worth(p@[j][i]) * place(i),
            n,
            n,
        ),
        worth(centre.1) * worth(total) == plane_sum(
            |j: int, i: int| worth(p@[j][i]) * place(j),
            n,
            n,
        ),
{
    let (zero, mx, my) = choose|zero: K::Real, mx: K::Real, my: K::Real|
        {
            &&& #[trigger] call_ensures(K::zero, (&k,), zero)
            &&& #[trigger] is_fold(u@, n, (zero, zero, zero), adds_moments(k), (total, mx, my))
            &&& call_ensures(K::has_power, (&k, total), true)
            &&& call_ensures(K::ratio, (&k, mx, total), centre.0)
            &&& call_ensures(K::ratio, (&k, my, total), centre.1)
        };
    let init = (zero, zero, zero);
    let out = (total, mx, my);
    let narrow = |s: (K::Real, K::Real, K::Real), j: int, i: int, v: K::Complex, next: (K::Real, K::Real, K::Real)|
        adds_moments(k)(s, j, i, v, next) && (0 <= j < n && 0 <= i < n ==> v == u@[j][i]);
    assert(is_fold(u@, n, init, narrow, out)) by {
        let run = choose|run: Seq<(K::Real, K::Real, K::Real)>| #[trigger]
            is_fold_run(u@, n, init, adds_moments(k), run) && run.last() == out;
        assert(is_fold_run(u@, n, init, narrow, run));
    }
    assert forall|
        s: (K::Real, K::Real, K::Real),
        j: int,
        i: int,
        v: K::Complex,
        next: (K::Real, K::Real, K::Real),
    | #[trigger]
        narrow(s, j, i, v, next) && 0 <= j < u@.len() && 0 <= i < n implies worth(next.0) == worth(
        s.0,
    ) + worth(p@[j][i]) && worth(next.1) == worth(s.1) + worth(p@[j][i]) * place(i) && worth(next.2)
        == worth(s.2) + worth(p@[j][i]) * place(j) by {
        assert(v == u@[j][i]);
        assert(call_ensures(K::intensity, (&k, u@[j][i]), p@[j][i]));
        reveal(counts_reproducibly);
        reveal(weighs_places);
    }
    let whole = |j: int, i: int, v: K::Complex| worth(p@[j][i]);
    let along = |j: int, i: int, v: K::Complex| worth(p@[j][i]) * place(i);
    let across = |j: int, i: int, v: K::Complex| worth(p@[j][i]) * place(j);
    lemma_fold_adds(u@, n, init, narrow, out, |s: (K::Real, K::Real, K::Real)| worth(s.0), whole);
    lemma_fold_adds(u@, n, init, narrow, out, |s: (K::Real, K::Real, K::Real)| worth(s.1), along);
    lemma_fold_adds(u@, n, init, narrow, out, |s: (K::Real, K::Real, K::Real)| worth(s.2), across);
    lemma_plane_sums_agree(
        |j: int, i: int| whole(j, i, u@[j][i]),
        |j: int, i: int| worth(p@[j][i]),
        n,
        n,
    );
    lemma_plane_sums_agree(
        |j: int, i: int| along(j, i, u@[j][i]),
        |j: int, i: int| worth(p@[j][i]) * place(i),
        n,
        n,
    );
    lemma_plane_sums_agree(
        |j: int, i: int| across(j, i, u@[j][i]),
        |j: int, i: int| worth(p@[j][i]) * place(j),
        n,
        n,
    );
    reveal(weighs_places);
}

/// The place that a blooming run reports is where its last intensity balances along x,
/// the axis of the wind.
pub proof fn law_blooming_centroid_is_along_the_wind<K: BloomingCase>(
    k: K,
    p: BloomingParams<K::Real>,
    air: AirProperties<K::Real>,
    run: BloomingRun<K::Real>,
    worth: spec_fn(K::Real) -> real,
    place: spec_fn(int) -> real,
)
    requires
        is_blooming_in_air(k, p, air, Ok(run)),
        counts_reproducibly(k),
        weighs_places(k, worth, place),
        run.centroid_x is Some,
    ensures
        worth(run.centroid_x->0) * total_of(worth, run.record.final_intensity@, p.n as nat)
            == plane_sum(
            |j: int, i: int| worth(run.record.final_intensity@[j][i]) * place(i),
            p.n as nat,
            p.n as nat,
        ),
{
    let (medium, launch, pre, post, u) = choose|
        medium: ThermalBlooming<K::Real>,
        launch: Field<K::Real, K::Complex>,
        pre: March<K>,
        post: March<K>,
        u: Plane<K::Complex>,
    | #[trigger]
        is_blooming_done(k, p, air, medium, launch, pre, post, u, run);
    let n = p.n as nat;
    let trace = lemma_trace_of(
        k,
        pre,
        launch,
        medium,
        run.dz,
        p.steps,
        p.frames,
        post,
        u,
        run.record,
    );
    lemma_trace_is_square(pre, medium, run.dz, launch.u, trace, trace.len() - 1);
    let (total, pair) = choose|total: K::Real, pair: Option<(K::Real, K::Real)>|
        {
            &&& #[trigger] is_centroid(k, u@, n, total, pair)
            &&& match pair {
                Some(xy) => run.centroid_x == Some(xy.0),
                None => run.centroid_x is None,
            }
        };
    law_centroid_balances_the_intensity(
        k,
        n,
        u,
        run.record.final_intensity,
        total,
        pair->0,
        worth,
        place,
    );
}

/// Every amplitude of a run is on the grid.
pub(crate) proof fn lemma_trace_is_square<K: Optics, M: Medium<K>>(
    pre: March<K>,
    medium: M,
    dz: K::Real,
    u: Plane<K::Complex>,
    trace: Seq<(March<K>, Plane<K::Complex>)>,
    i: int,
)
    requires
        is_square(u, pre.n as int),
        is_run(pre, medium, dz, 0, u, trace),
        0 <= i < trace.len(),
    ensures
        trace[i].0.n == pre.n,
        is_square(trace[i].1, pre.n as int),
    decreases i,
{
    if i > 0 {
        lemma_trace_is_square(pre, medium, dz, u, trace, i - 1);
        assert(is_step_at(medium, dz, 0, trace, i - 1));
    }
}

} // verus!

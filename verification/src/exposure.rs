//! What the long exposure of an ensemble says of its frames.
//!
//! A long exposure is the average of the frames, sample by sample: no sample of it sees
//! any other sample of the frames, its total power is the average of theirs, and
//! what it lacks of the launched power is what the edge absorbed on average.
use crate::algebra::{lemma_commutes, lemma_distributes};
use crate::cases::{
    are_fractions, are_members, guards_of, is_ensemble, is_ensemble_member, is_gathered, is_launch,
    is_mean, is_member, is_path_walked, is_realization, is_total_run, is_turbulence_run, samples_at,
    spec_substeps, Path, PathCase, PathError, PathWalk, Realization, TurbulenceCase,
    TurbulenceParams, TurbulenceRun,
};
use crate::field::{adds_intensity, is_power, Field};
use crate::grid::Grid;
use crate::medium::Medium;
use crate::optics::Optics;
use crate::plane::{is_fold, is_fold_run, Plane};
use crate::propagate::{
    is_intensity, law_guard_band_accounts_for_the_deficit, loses_at_the_edge_only,
};
use crate::replay::{
    are_alike_paths, is_reproducible, lemma_launch_is_one, lemma_mean_is_one,
    lemma_realization_is_one, numbers_reproducibly,
};
use crate::sums::{
    lemma_fold_adds, lemma_line_sum_scales, lemma_line_sums_agree, lemma_plane_sum_adds,
    lemma_plane_sum_scales, lemma_plane_sums_agree, line_sum, plane_sum, total_of,
};
use crate::transparency::{counts_reproducibly, lemma_power_is_one};
use vstd::prelude::*;

verus! {

/// A sample of a long exposure depends on the same sample of the frames and on no other:
/// where the frames of two ensembles agree at a sample, so do the long exposures.
pub proof fn law_long_exposure_is_sample_by_sample<K: TurbulenceCase>(
    k: K,
    p: TurbulenceParams<K::Real>,
    q: TurbulenceParams<K::Real>,
    a: TurbulenceRun<K::Real>,
    b: TurbulenceRun<K::Real>,
    j: int,
    i: int,
)
    requires
        is_turbulence_run(k, p, Ok(a)),
        is_turbulence_run(k, q, Ok(b)),
        is_reproducible(k),
        numbers_reproducibly(k),
        0 <= j < p.n,
        0 <= i < p.n,
        j < q.n,
        i < q.n,
        a.frames@.len() == b.frames@.len(),
        forall|m: int| 0 <= m < a.frames@.len() ==> (#[trigger] a.frames@[m])@[j][i]
            == b.frames@[m]@[j][i],
    ensures
        a.longexp@[j][i] == b.longexp@[j][i],
{
    let (x, y) = (samples_at(a.frames@, j, i), samples_at(b.frames@, j, i));
    assert forall|m: int| 0 <= m < x.len() implies x[m] == y[m] by {
        assert(a.frames@[m]@[j][i] == b.frames@[m]@[j][i]);
    }
    assert(x =~= y);
    lemma_mean_is_one(k, x, a.longexp@[j][i], b.longexp@[j][i]);
}

/// Averages are exact: sums add up, a number of members is that number, and a ratio
/// undoes a product.
#[verifier::opaque]
pub open spec fn averages_exactly<K: PathCase>(k: K, worth: spec_fn(K::Real) -> real) -> bool {
    &&& forall|z: K::Real| #[trigger] call_ensures(K::zero, (&k,), z) ==> worth(z) == 0real
    &&& forall|a: K::Real, b: K::Real, c: K::Real| #[trigger]
        call_ensures(K::plus, (&k, a, b), c) ==> worth(c) == worth(a) + worth(b)
    &&& forall|n: usize, a: K::Real| #[trigger]
        call_ensures(K::members, (&k, n), a) ==> worth(a) == n as real
    &&& forall|a: K::Real, b: K::Real, c: K::Real| #[trigger]
        call_ensures(K::ratio, (&k, a, b), c) && worth(b) != 0real ==> worth(c) * worth(b)
            == worth(a)
}

proof fn lemma_total_is_the_sum<K: PathCase>(
    k: K,
    values: Seq<K::Real>,
    run: Seq<K::Real>,
    worth: spec_fn(K::Real) -> real,
    i: nat,
)
    requires
        averages_exactly(k, worth),
        is_total_run(k, values, run),
        i <= values.len(),
    ensures
        worth(run[i as int]) == line_sum(|m: int| worth(values[m]), i),
    decreases i,
{
    reveal(averages_exactly);
    if i > 0 {
        lemma_total_is_the_sum(k, values, run, worth, (i - 1) as nat);
        assert(values[i - 1] == values[i - 1]);
        assert(call_ensures(K::plus, (&k, run[i - 1], values[i - 1]), run[i as int]));
    }
}

/// A mean, times the number of its members, is their sum.
pub proof fn law_mean_is_the_average<K: PathCase>(
    k: K,
    values: Seq<K::Real>,
    mean: K::Real,
    worth: spec_fn(K::Real) -> real,
)
    requires
        averages_exactly(k, worth),
        is_mean(k, values, mean),
        0 < values.len() <= usize::MAX,
    ensures
        worth(mean) * (values.len() as real) == line_sum(
            |m: int| worth(values[m]),
            values.len(),
        ),
{
    let (count, run) = choose|count: K::Real, run: Seq<K::Real>|
        {
            &&& #[trigger] call_ensures(K::members, (&k, values.len() as usize), count)
            &&& #[trigger] is_total_run(k, values, run)
            &&& call_ensures(K::ratio, (&k, run.last(), count), mean)
        };
    lemma_total_is_the_sum(k, values, run, worth, values.len());
    reveal(averages_exactly);
}

/// The frames of an ensemble and its members, one by one.
proof fn lemma_members_of<K: TurbulenceCase>(
    k: K,
    p: TurbulenceParams<K::Real>,
    run: TurbulenceRun<K::Real>,
) -> (members: Seq<Realization<K::Real>>)
    requires
        is_turbulence_run(k, p, Ok(run)),
    ensures
        is_ensemble(k, p, members, run),
        members.len() == p.realizations == run.frames@.len() == run.xz_frames@.len(),
        forall|m: int|
            0 <= m < members.len() ==> is_ensemble_member(
                k,
                p,
                m as u64,
                Ok::<_, PathError<<K::Path as Medium<K>>::Refusal>>(#[trigger] members[m]),
            ) && run.frames@[m] == members[m].frame && run.xz_frames@[m] == members[m].side,
{
    let results = choose|
        results: Seq<
            Result<Realization<K::Real>, PathError<<K::Path as Medium<K>>::Refusal>>,
        >,
    |
        {
            &&& #[trigger] are_members(k, p, results)
            &&& exists|members: Seq<Realization<K::Real>>| #[trigger]
                is_gathered(results, Ok(members)) && is_ensemble(k, p, members, run)
        };
    let members = choose|members: Seq<Realization<K::Real>>| #[trigger]
        is_gathered(results, Ok(members)) && is_ensemble(k, p, members, run);
    assert forall|m: int| 0 <= m < members.len() implies is_ensemble_member(
        k,
        p,
        m as u64,
        Ok::<_, PathError<<K::Path as Medium<K>>::Refusal>>(#[trigger] members[m]),
    ) && run.frames@[m] == members[m].frame && run.xz_frames@[m] == members[m].side by {
        assert(is_ensemble_member(k, p, m as u64, results[m]));
    }
    members
}

/// The long exposure is the average of the frames, sample by sample.
pub proof fn law_long_exposure_is_the_average<K: TurbulenceCase>(
    k: K,
    p: TurbulenceParams<K::Real>,
    run: TurbulenceRun<K::Real>,
    worth: spec_fn(K::Real) -> real,
    j: int,
    i: int,
)
    requires
        is_turbulence_run(k, p, Ok(run)),
        averages_exactly(k, worth),
        p.realizations > 0,
        0 <= j < p.n,
        0 <= i < p.n,
    ensures
        run.frames@.len() == p.realizations,
        worth(run.longexp@[j][i]) * (p.realizations as real) == line_sum(
            |m: int| worth(run.frames@[m]@[j][i]),
            p.realizations as nat,
        ),
{
    let members = lemma_members_of(k, p, run);
    let values = samples_at(run.frames@, j, i);
    law_mean_is_the_average(k, values, run.longexp@[j][i], worth);
    lemma_line_sums_agree(
        |m: int| worth(values[m]),
        |m: int| worth(run.frames@[m]@[j][i]),
        p.realizations as nat,
    );
}

/// The long exposure of frames that are all alike is that frame.
pub proof fn law_long_exposure_of_equal_frames<K: TurbulenceCase>(
    k: K,
    p: TurbulenceParams<K::Real>,
    run: TurbulenceRun<K::Real>,
    worth: spec_fn(K::Real) -> real,
    j: int,
    i: int,
)
    requires
        is_turbulence_run(k, p, Ok(run)),
        averages_exactly(k, worth),
        p.realizations > 0,
        0 <= j < p.n,
        0 <= i < p.n,
        forall|m: int|
            0 <= m < p.realizations ==> (#[trigger] run.frames@[m])@[j][i]
                == run.frames@[0]@[j][i],
    ensures
        worth(run.longexp@[j][i]) == worth(run.frames@[0]@[j][i]),
{
    law_long_exposure_is_the_average(k, p, run, worth, j, i);
    let n = p.realizations as nat;
    let v = worth(run.frames@[0]@[j][i]);
    let f = |m: int| worth(run.frames@[m]@[j][i]);
    let one = |m: int| 1real;
    assert forall|m: int| 0 <= m < n implies #[trigger] f(m) == v * one(m) by {
        assert(run.frames@[m]@[j][i] == run.frames@[0]@[j][i]);
        assert(v * 1real == v) by (nonlinear_arith);
    }
    lemma_line_sum_scales(one, f, v, n);
    lemma_ones(n);
    let x = worth(run.longexp@[j][i]);
    assert(x == v) by (nonlinear_arith)
        requires
            x * (n as real) == v * (n as real),
            n as real > 0real,
    ;
}

proof fn lemma_ones(n: nat)
    ensures
        line_sum(|m: int| 1real, n) == n as real,
    decreases n,
{
    if n > 0 {
        lemma_ones((n - 1) as nat);
    }
}

/// Sum over the first `m` frames of their totals.
proof fn lemma_totals_of_frames<R>(
    worth: spec_fn(R) -> real,
    frames: Seq<Plane<R>>,
    n: nat,
    m: nat,
)
    requires
        m <= frames.len(),
    ensures
        plane_sum(
            |j: int, i: int| line_sum(|l: int| worth(frames[l]@[j][i]), m),
            n,
            n,
        ) == line_sum(|l: int| total_of(worth, frames[l]@, n), m),
    decreases m,
{
    let h = |j: int, i: int| line_sum(|l: int| worth(frames[l]@[j][i]), m);
    if m > 0 {
        let l = (m - 1) as nat;
        lemma_totals_of_frames(worth, frames, n, l);
        let f = |j: int, i: int| line_sum(|l: int| worth(frames[l]@[j][i]), l);
        let g = |j: int, i: int| worth(frames[l as int]@[j][i]);
        assert forall|j: int, i: int| 0 <= j < n && 0 <= i < n implies #[trigger] h(j, i) == f(j, i)
            + g(j, i) by {
            let t = |l: int| worth(frames[l]@[j][i]);
            assert(line_sum(t, m) == line_sum(t, l) + t(l as int));
        }
        lemma_plane_sum_adds(f, g, h, n, n);
    } else {
        let z = |j: int, i: int| 0real;
        lemma_plane_sums_agree(h, z, n, n);
        lemma_nothing_adds_up_to_nothing(n, n);
    }
}

proof fn lemma_nothing_adds_up_to_nothing(width: nat, j: nat)
    ensures
        plane_sum(|j: int, i: int| 0real, width, j) == 0real,
    decreases j,
{
    if j > 0 {
        lemma_nothing_adds_up_to_nothing(width, (j - 1) as nat);
        lemma_empty_line(width);
        let f = |j: int, i: int| 0real;
        lemma_line_sums_agree(|i: int| f(j - 1, i), |i: int| 0real, width);
    }
}

proof fn lemma_empty_line(i: nat)
    ensures
        line_sum(|i: int| 0real, i) == 0real,
    decreases i,
{
    if i > 0 {
        lemma_empty_line((i - 1) as nat);
    }
}

/// The total of the long exposure is the average of the totals of the frames.
pub proof fn law_long_exposure_has_the_average_power<K: TurbulenceCase>(
    k: K,
    p: TurbulenceParams<K::Real>,
    run: TurbulenceRun<K::Real>,
    worth: spec_fn(K::Real) -> real,
)
    requires
        is_turbulence_run(k, p, Ok(run)),
        averages_exactly(k, worth),
        p.realizations > 0,
    ensures
        total_of(worth, run.longexp@, p.n as nat) * (p.realizations as real) == line_sum(
            |m: int| total_of(worth, run.frames@[m]@, p.n as nat),
            p.realizations as nat,
        ),
{
    let (n, c) = (p.n as nat, p.realizations as nat);
    let members = lemma_members_of(k, p, run);
    let f = |j: int, i: int| worth(run.longexp@[j][i]);
    let h = |j: int, i: int| line_sum(|l: int| worth(run.frames@[l]@[j][i]), c);
    assert forall|j: int, i: int| 0 <= j < n && 0 <= i < n implies #[trigger] h(j, i) == (c as real)
        * f(j, i) by {
        law_long_exposure_is_the_average(k, p, run, worth, j, i);
        lemma_commutes(c as real, f(j, i));
    }
    lemma_plane_sum_scales(f, h, c as real, n, n);
    lemma_totals_of_frames(worth, run.frames@, n, c);
    lemma_commutes(c as real, total_of(worth, run.longexp@, n));
}

/// A side view ends with the frame: its last column is the central row of the frame, over
/// the middle half of the grid.
pub proof fn law_side_view_ends_with_the_frame<K: TurbulenceCase>(
    k: K,
    p: TurbulenceParams<K::Real>,
    run: TurbulenceRun<K::Real>,
    m: int,
    x: int,
)
    requires
        is_turbulence_run(k, p, Ok(run)),
        counts_reproducibly(k),
        0 <= m < run.frames@.len(),
        0 <= x < run.xz_frames@[m]@.len(),
        p.n > 0,
    ensures
        run.xz_frames@[m]@.len() == 3 * p.n as int / 4 - p.n as int / 4,
        run.xz_frames@[m].spec_width() > 0,
        run.xz_frames@[m]@[x][run.xz_frames@[m].spec_width() - 1] == run.frames@[m]@[p.n as int
            / 2][p.n as int / 4 + x],
{
    let n = p.n as int;
    let members = lemma_members_of(k, p, run);
    let path = choose|path: K::Path| #[trigger]
        call_ensures(
            K::path,
            (&k, p, spec_substeps(p.screens as int) as usize, m as u64),
            path,
        ) && is_realization(k, p, path, Ok(members[m]));
    let (dz, slabs, walk) = choose|dz: K::Real, slabs: usize, walk: PathWalk<K>| #[trigger]
        is_path_walked(k, p, path, dz, slabs, walk) && is_member(k, n, walk, members[m]);
    let (side, frame) = (members[m].side, members[m].frame);
    let z = walk.trace.len() - 1;
    assert(call_ensures(
        K::intensity,
        (&k, walk.trace[z].1@[n / 2][n / 4 + x]),
        side@[x][z],
    ));
    assert(call_ensures(
        K::intensity,
        (&k, walk.u@[n / 2][n / 4 + x]),
        frame@[n / 2][n / 4 + x],
    ));
    reveal(counts_reproducibly);
}

/// Powers are exact: a sum of intensities adds up, and a power is `unit` per unit of it.
#[verifier::opaque]
pub open spec fn measures_power<K: Optics>(
    k: K,
    worth: spec_fn(K::Real) -> real,
    unit: real,
) -> bool {
    &&& forall|z: K::Real| #[trigger] call_ensures(K::zero, (&k,), z) ==> worth(z) == 0real
    &&& forall|a: K::Real, b: K::Real, c: K::Real| #[trigger]
        call_ensures(K::plus, (&k, a, b), c) ==> worth(c) == worth(a) + worth(b)
    &&& forall|s: K::Real, p: K::Real| #[trigger]
        call_ensures(K::power, (&k, s), p) ==> worth(p) == unit * worth(s)
    &&& forall|a: K::Real, b: K::Real, c: K::Real| #[trigger]
        call_ensures(K::ratio, (&k, a, b), c) && worth(b) != 0real ==> worth(c) * worth(b)
            == worth(a)
}

/// The power of an amplitude is the total of its intensity.
pub proof fn law_power_is_the_total_intensity<K: Optics>(
    k: K,
    n: nat,
    u: Plane<K::Complex>,
    p: Plane<K::Real>,
    power: K::Real,
    worth: spec_fn(K::Real) -> real,
    unit: real,
)
    requires
        counts_reproducibly(k),
        measures_power(k, worth, unit),
        u@.len() == n,
        is_intensity(k, n as int, u, p),
        is_power(k, u@, n, power),
    ensures
        worth(power) == unit * total_of(worth, p@, n),
{
    let (zero, sum) = choose|zero: K::Real, sum: K::Real|
        {
            &&& #[trigger] call_ensures(K::zero, (&k,), zero)
            &&& #[trigger] is_fold(u@, n, zero, adds_intensity(k), sum)
            &&& call_ensures(K::power, (&k, sum), power)
        };
    let amount = |j: int, i: int, v: K::Complex| worth(p@[j][i]);
    let narrow = |s: K::Real, j: int, i: int, v: K::Complex, next: K::Real|
        adds_intensity(k)(s, j, i, v, next) && (0 <= j < n && 0 <= i < n ==> v == u@[j][i]);
    assert(is_fold(u@, n, zero, narrow, sum)) by {
        let run = choose|run: Seq<K::Real>| #[trigger]
            is_fold_run(u@, n, zero, adds_intensity(k), run) && run.last() == sum;
        assert(is_fold_run(u@, n, zero, narrow, run));
    }
    assert forall|s: K::Real, j: int, i: int, v: K::Complex, next: K::Real| #[trigger]
        narrow(s, j, i, v, next) && 0 <= j < u@.len() && 0 <= i < n implies worth(next) == worth(s)
        + amount(j, i, v) by {
        assert(v == u@[j][i]);
        assert(call_ensures(K::intensity, (&k, u@[j][i]), p@[j][i]));
        reveal(counts_reproducibly);
        reveal(measures_power);
    }
    lemma_fold_adds(u@, n, zero, narrow, sum, worth, amount);
    lemma_plane_sums_agree(
        |l: int, x: int| amount(l, x, u@[l][x]),
        |j: int, i: int| worth(p@[j][i]),
        n,
        n,
    );
    reveal(measures_power);
}

/// The members of an ensemble do not depend on how many there are: the frames and the side
/// views of a smaller ensemble are the first of a larger one.
pub proof fn law_first_frames_are_kept<K: TurbulenceCase>(
    k: K,
    p: TurbulenceParams<K::Real>,
    realizations: usize,
    larger: TurbulenceRun<K::Real>,
    smaller: TurbulenceRun<K::Real>,
    m: int,
)
    requires
        is_reproducible(k),
        is_turbulence_run(k, p, Ok(larger)),
        is_turbulence_run(k, (TurbulenceParams { realizations, ..p }), Ok(smaller)),
        realizations <= p.realizations,
        forall|substeps: usize, i: u64, x: K::Path, y: K::Path| #[trigger]
            call_ensures(K::path, (&k, p, substeps, i), x) && #[trigger] call_ensures(
                K::path,
                (&k, (TurbulenceParams { realizations, ..p }), substeps, i),
                y,
            ) ==> are_alike_paths(k, x, y),
        0 <= m < realizations,
    ensures
        smaller.frames@.len() == realizations,
        smaller.frames@[m]@ == larger.frames@[m]@,
        smaller.xz_frames@[m]@ == larger.xz_frames@[m]@,
{
    let q = TurbulenceParams { realizations, ..p };
    let (all, some) = (lemma_members_of(k, p, larger), lemma_members_of(k, q, smaller));
    let substeps = spec_substeps(p.screens as int) as usize;
    let x = choose|path: K::Path| #[trigger]
        call_ensures(K::path, (&k, p, substeps, m as u64), path) && is_realization(
            k,
            p,
            path,
            Ok(all[m]),
        );
    let y = choose|path: K::Path| #[trigger]
        call_ensures(K::path, (&k, q, substeps, m as u64), path) && is_realization(
            k,
            q,
            path,
            Ok(some[m]),
        );
    let (dz, slabs, walk) = choose|dz: K::Real, slabs: usize, walk: PathWalk<K>| #[trigger]
        is_path_walked(k, q, y, dz, slabs, walk) && is_member(k, q.n as int, walk, some[m]);
    assert(is_path_walked(k, p, y, dz, slabs, walk));
    assert(is_realization(k, p, y, Ok(some[m])));
    lemma_realization_is_one(k, p, x, y, all[m], some[m]);
}

/// What a member lacks of the launched power is what its edge absorbed, over a path that
/// takes nothing itself.
proof fn lemma_member_accounts<K: Optics, P: Path<K>>(
    k: K,
    p: TurbulenceParams<K::Real>,
    path: P,
    m: Realization<K::Real>,
    launch: Field<K::Real, K::Complex>,
    p0: K::Real,
    size: spec_fn(Seq<Seq<K::Complex>>) -> real,
    worth: spec_fn(K::Real) -> real,
    unit: real,
)
    requires
        is_realization(k, p, path, Ok(m)),
        is_reproducible(k),
        measures_power(k, worth, unit),
        forall|dz: K::Real| #[trigger]
            call_ensures(<P as Path<K>>::dz, (&path, &k), dz) ==> loses_at_the_edge_only(
                k,
                p.n as nat,
                path,
                dz,
                size,
                worth,
            ),
        is_launch(k, Grid { n: p.n, dx: p.dx }, p.wavelength, p.w0, launch),
        is_power(k, launch.u@, p.n as nat, p0),
        worth(p0) != 0real,
    ensures
        worth(m.guard_frac) * worth(p0) == worth(p0) - unit * total_of(
            worth,
            m.frame@,
            p.n as nat,
        ),
{
    let n = p.n as nat;
    let (dz, slabs, walk) = choose|dz: K::Real, slabs: usize, walk: PathWalk<K>| #[trigger]
        is_path_walked(k, p, path, dz, slabs, walk) && is_member(k, p.n as int, walk, m);
    let t = choose|t: K::Real| #[trigger]
        are_fractions(k, n, walk.launch.u, walk.u, walk.post.absorbed, t, m.guard_frac);
    let (q0, q1) = choose|q0: K::Real, q1: K::Real|
        {
            &&& #[trigger] is_power(k, walk.launch.u@, n, q0)
            &&& #[trigger] is_power(k, walk.u@, n, q1)
            &&& call_ensures(K::ratio, (&k, q1, q0), t)
            &&& call_ensures(K::ratio, (&k, walk.post.absorbed, q0), m.guard_frac)
        };
    lemma_launch_is_one(
        k,
        Grid { n: p.n, dx: p.dx },
        p.wavelength,
        p.w0,
        walk.launch,
        launch,
    );
    lemma_power_is_one(k, launch.u@, n, p0, q0);
    law_guard_band_accounts_for_the_deficit(
        walk.pre,
        path,
        dz,
        0,
        walk.launch.u,
        walk.trace,
        size,
        worth,
    );
    law_power_is_the_total_intensity(k, n, walk.u, m.frame, q1, worth, unit);
    assert(call_ensures(K::zero, (&k,), walk.pre.absorbed));
    assert(worth(walk.pre.absorbed) == 0real && worth(m.guard_frac) * worth(q0) == worth(
        walk.post.absorbed,
    )) by {
        reveal(measures_power);
    }
}

/// Over paths that take nothing themselves, what the long exposure lacks of the launched
/// power is the launched power times the mean guard fraction.
pub proof fn law_long_exposure_lacks_what_the_edge_took<K: TurbulenceCase>(
    k: K,
    p: TurbulenceParams<K::Real>,
    run: TurbulenceRun<K::Real>,
    launch: Field<K::Real, K::Complex>,
    p0: K::Real,
    size: spec_fn(Seq<Seq<K::Complex>>) -> real,
    worth: spec_fn(K::Real) -> real,
    unit: real,
)
    requires
        is_turbulence_run(k, p, Ok(run)),
        is_reproducible(k),
        averages_exactly(k, worth),
        measures_power(k, worth, unit),
        p.realizations > 0,
        forall|path: K::Path, dz: K::Real| #[trigger]
            call_ensures(<K::Path as Path<K>>::dz, (&path, &k), dz) ==> loses_at_the_edge_only(
                k,
                p.n as nat,
                path,
                dz,
                size,
                worth,
            ),
        is_launch(k, Grid { n: p.n, dx: p.dx }, p.wavelength, p.w0, launch),
        is_power(k, launch.u@, p.n as nat, p0),
        worth(p0) != 0real,
    ensures
        worth(run.guard_frac_mean) * worth(p0) == worth(p0) - unit * total_of(
            worth,
            run.longexp@,
            p.n as nat,
        ),
{
    let (n, c) = (p.n as nat, p.realizations as nat);
    let members = lemma_members_of(k, p, run);
    let guards = guards_of(members);
    law_mean_is_the_average(k, guards, run.guard_frac_mean, worth);
    law_long_exposure_has_the_average_power(k, p, run, worth);
    let power = worth(p0);
    let g = |m: int| worth(guards[m]);
    let t = |m: int| total_of(worth, run.frames@[m]@, n);
    assert forall|m: int| 0 <= m < c implies #[trigger] g(m) * power == power - unit * t(m) by {
        let path = choose|path: K::Path| #[trigger]
            call_ensures(
                K::path,
                (&k, p, spec_substeps(p.screens as int) as usize, m as u64),
                path,
            ) && is_realization(k, p, path, Ok(members[m]));
        lemma_member_accounts(k, p, path, members[m], launch, p0, size, worth, unit);
        assert(run.frames@[m] == members[m].frame);
        assert(guards[m] == members[m].guard_frac);
    }
    lemma_shares_add_up(g, t, power, unit, c);
    let (mean, long, count) = (worth(run.guard_frac_mean), total_of(worth, run.longexp@, n), c as real);
    assert(mean * power == power - unit * long) by (nonlinear_arith)
        requires
            count > 0real,
            (mean * count) * power == count * power - unit * (long * count),
    ;
}

proof fn lemma_shares_add_up(
    g: spec_fn(int) -> real,
    t: spec_fn(int) -> real,
    power: real,
    unit: real,
    c: nat,
)
    requires
        forall|m: int| 0 <= m < c ==> #[trigger] g(m) * power == power - unit * t(m),
    ensures
        line_sum(g, c) * power == (c as real) * power - unit * line_sum(t, c),
    decreases c,
{
    if c > 0 {
        let d = (c - 1) as nat;
        lemma_shares_add_up(g, t, power, unit, d);
        assert(g(c - 1) * power == power - unit * t(c - 1));
        lemma_distributes(line_sum(g, d), g(c - 1), power);
        lemma_distributes(line_sum(t, d), t(c - 1), unit);
        assert((c as real) * power == (d as real) * power + power) by (nonlinear_arith)
            requires
                c as real == d as real + 1real,
        ;
    } else {
        assert(0real * power == 0real && unit * 0real == 0real) by (nonlinear_arith);
    }
}

} // verus!

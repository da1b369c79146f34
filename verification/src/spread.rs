//! How a beam spreads over its grid.
//!
//! The width of a beam is the spread of its intensity about its centroid, along x over
//! the columns and along y over the rows, so a beam that is the same under exchange of
//! the axes is as wide as it is high. What is contained is the intensity away from the
//! edge. The response of free space is laid out about the origin of a transform.
use crate::algebra::lemma_cancels;
use crate::cases::{
    is_launch, is_propagate_done, is_propagate_run, is_width_x, PathCase, PropagateParams,
    PropagateRun,
};
use crate::field::Field;
use crate::grid::{is_grid_size, offset_of, shifted_of, Grid};
use crate::isotropy::is_round;
use crate::medium::{Haze, UniformExtinction};
use crate::optics::Optics;
use crate::plane::{is_fold, is_fold_run, Plane};
use crate::propagate::{
    adds_containment, adds_spreads, are_containment_sums, are_widths, is_beam_width, is_centroid,
    is_intensity, is_kernel, is_rolled_impulse, is_square, DiffractionMethod, March,
};
use crate::record::{
    law_centroid_balances_the_intensity, lemma_trace_is_square, lemma_trace_of, weighs_places,
};
use crate::sums::{lemma_fold_adds, lemma_plane_sums_agree, lemma_sums_turn, plane_sum, total_of};
use crate::transparency::counts_reproducibly;
use vstd::prelude::*;
use vstd::arithmetic::div_mod::{lemma_mod_add_multiples_vanish, lemma_small_mod};

verus! {

/// Spreads add up exactly: a sample at `place` adds its intensity times the square of
/// its distance from the centre, and a width, squared, is the mean of that, `factor`
/// times.
#[verifier::opaque]
pub open spec fn spreads_exactly<K: Optics>(
    k: K,
    worth: spec_fn(K::Real) -> real,
    place: spec_fn(int) -> real,
    factor: real,
) -> bool {
    &&& forall|s: K::Real, p: K::Real, i: usize, c: K::Real, next: K::Real| #[trigger]
        call_ensures(K::add_spread, (&k, s, p, i, c), next) ==> worth(next) == worth(s) + worth(p)
            * ((place(i as int) - worth(c)) * (place(i as int) - worth(c)))
    &&& forall|v: K::Real, total: K::Real, w: K::Real| #[trigger]
        call_ensures(K::width, (&k, v, total), w) && worth(total) != 0real ==> worth(w) * worth(w)
            * worth(total) == factor * worth(v)
}

/// What samples of `p` spread about `c` along x, where each is at the place of its
/// column.
pub open spec fn spread_along<R>(
    worth: spec_fn(R) -> real,
    p: Seq<Seq<R>>,
    place: spec_fn(int) -> real,
    c: real,
    n: nat,
) -> real {
    plane_sum(
        |j: int, i: int| worth(p[j][i]) * ((place(i) - c) * (place(i) - c)),
        n,
        n,
    )
}

/// The same along y, where each is at the place of its row.
pub open spec fn spread_across<R>(
    worth: spec_fn(R) -> real,
    p: Seq<Seq<R>>,
    place: spec_fn(int) -> real,
    c: real,
    n: nat,
) -> real {
    plane_sum(
        |j: int, i: int| worth(p[j][i]) * ((place(j) - c) * (place(j) - c)),
        n,
        n,
    )
}

proof fn lemma_spreads<K: Optics>(
    k: K,
    n: nat,
    u: Plane<K::Complex>,
    p: Plane<K::Real>,
    zero: K::Real,
    c: (K::Real, K::Real),
    v: (K::Real, K::Real),
    worth: spec_fn(K::Real) -> real,
    place: spec_fn(int) -> real,
    factor: real,
)
    requires
        counts_reproducibly(k),
        spreads_exactly(k, worth, place, factor),
        worth(zero) == 0real,
        u@.len() == n,
        n <= usize::MAX,
        is_intensity(k, n as int, u, p),
        is_fold(u@, n, (zero, zero), adds_spreads(k, c.0, c.1), v),
    ensures
        worth(v.0) == spread_along(worth, p@, place, worth(c.0), n),
        worth(v.1) == spread_across(worth, p@, place, worth(c.1), n),
{
    let init = (zero, zero);
    let narrow = |s: (K::Real, K::Real), j: int, i: int, a: K::Complex, next: (K::Real, K::Real)|
        adds_spreads(k, c.0, c.1)(s, j, i, a, next) && (0 <= j < n && 0 <= i < n ==> a == u@[j][i]);
    assert(is_fold(u@, n, init, narrow, v)) by {
        let run = choose|run: Seq<(K::Real, K::Real)>| #[trigger]
            is_fold_run(u@, n, init, adds_spreads(k, c.0, c.1), run) && run.last() == v;
        assert(is_fold_run(u@, n, init, narrow, run));
    }
    let (cx, cy) = (worth(c.0), worth(c.1));
    let along = |j: int, i: int, a: K::Complex|
        worth(p@[j][i]) * ((place(i) - cx) * (place(i) - cx));
    let across = |j: int, i: int, a: K::Complex|
        worth(p@[j][i]) * ((place(j) - cy) * (place(j) - cy));
    assert forall|s: (K::Real, K::Real), j: int, i: int, a: K::Complex, next: (K::Real, K::Real)|
        #[trigger] narrow(s, j, i, a, next) && 0 <= j < u@.len() && 0 <= i < n implies worth(next.0)
        == worth(s.0) + along(j, i, a) && worth(next.1) == worth(s.1) + across(j, i, a) by {
        assert(a == u@[j][i]);
        assert(call_ensures(K::intensity, (&k, u@[j][i]), p@[j][i]));
        reveal(counts_reproducibly);
        reveal(spreads_exactly);
    }
    lemma_fold_adds(u@, n, init, narrow, v, |s: (K::Real, K::Real)| worth(s.0), along);
    lemma_fold_adds(u@, n, init, narrow, v, |s: (K::Real, K::Real)| worth(s.1), across);
    lemma_plane_sums_agree(
        |j: int, i: int| along(j, i, u@[j][i]),
        |j: int, i: int| worth(p@[j][i]) * ((place(i) - cx) * (place(i) - cx)),
        n,
        n,
    );
    lemma_plane_sums_agree(
        |j: int, i: int| across(j, i, u@[j][i]),
        |j: int, i: int| worth(p@[j][i]) * ((place(j) - cy) * (place(j) - cy)),
        n,
        n,
    );
}

/// The width of a beam is the spread of its intensity about its centroid: along x the
/// spread of the columns, along y that of the rows.
pub proof fn law_width_is_the_spread_of_the_intensity<K: Optics>(
    k: K,
    n: nat,
    u: Plane<K::Complex>,
    p: Plane<K::Real>,
    widths: (K::Real, K::Real),
    worth: spec_fn(K::Real) -> real,
    place: spec_fn(int) -> real,
    factor: real,
) -> (r: (K::Real, (K::Real, K::Real)))
    requires
        counts_reproducibly(k),
        weighs_places(k, worth, place),
        spreads_exactly(k, worth, place, factor),
        u@.len() == n,
        n <= usize::MAX,
        is_intensity(k, n as int, u, p),
        is_beam_width(k, u@, n, Some(widths)),
    ensures
        is_centroid(k, u@, n, r.0, Some(r.1)),
        worth(r.0) == total_of(worth, p@, n),
        worth(r.0) != 0real,
        worth(widths.0) * worth(widths.0) * worth(r.0) == factor * spread_along(
            worth,
            p@,
            place,
            worth(r.1.0),
            n,
        ),
        worth(widths.1) * worth(widths.1) * worth(r.0) == factor * spread_across(
            worth,
            p@,
            place,
            worth(r.1.1),
            n,
        ),
{
    let (total, centre) = choose|total: K::Real, centre: Option<(K::Real, K::Real)>|
        {
            &&& #[trigger] is_centroid(k, u@, n, total, centre)
            &&& match centre {
                None => false,
                Some(c) => are_widths(k, u@, n, total, c.0, c.1, widths.0, widths.1),
            }
        };
    let c = centre->0;
    assert(centre == Some(c));
    law_centroid_balances_the_intensity(k, n, u, p, total, c, worth, place);
    let (zero, vx, vy) = choose|zero: K::Real, vx: K::Real, vy: K::Real|
        {
            &&& #[trigger] call_ensures(K::zero, (&k,), zero)
            &&& #[trigger] is_fold(u@, n, (zero, zero), adds_spreads(k, c.0, c.1), (vx, vy))
            &&& call_ensures(K::width, (&k, vx, total), widths.0)
            &&& call_ensures(K::width, (&k, vy, total), widths.1)
        };
    assert(worth(zero) == 0real) by {
        reveal(weighs_places);
    }
    lemma_spreads(k, n, u, p, zero, c, (vx, vy), worth, place, factor);
    reveal(spreads_exactly);
    (total, c)
}

/// The width that a run reports is the spread of its last intensity along x, about the
/// place where that intensity balances.
pub proof fn law_reported_width_is_along_x<K: PathCase + Haze>(
    k: K,
    p: PropagateParams<K::Real>,
    run: PropagateRun<K::Real>,
    worth: spec_fn(K::Real) -> real,
    place: spec_fn(int) -> real,
    factor: real,
) -> (c: real)
    requires
        is_propagate_run(k, p, Ok(run)),
        counts_reproducibly(k),
        weighs_places(k, worth, place),
        spreads_exactly(k, worth, place, factor),
        run.width_x is Some,
    ensures
        c * total_of(worth, run.record.final_intensity@, p.n as nat) == plane_sum(
            |j: int, i: int| worth(run.record.final_intensity@[j][i]) * place(i),
            p.n as nat,
            p.n as nat,
        ),
        worth(run.width_x->0) * worth(run.width_x->0) * total_of(
            worth,
            run.record.final_intensity@,
            p.n as nat,
        ) == factor * spread_along(worth, run.record.final_intensity@, place, c, p.n as nat),
{
    let (medium, launch, pre, post, u) = choose|
        medium: UniformExtinction<K::Real>,
        launch: Field<K::Real, K::Complex>,
        pre: March<K>,
        post: March<K>,
        u: Plane<K::Complex>,
    | #[trigger]
        is_propagate_done(k, p, medium, launch, pre, post, u, run);
    let n = p.n as nat;
    let trace = lemma_trace_of(
        k,
        pre,
        launch,
        medium,
        run.dz,
        p.steps,
        p.frames,
        post,
        u,
        run.record,
    );
    lemma_trace_is_square(pre, medium, run.dz, launch.u, trace, trace.len() - 1);
    let w = run.width_x->0;
    assert(is_width_x(k, n as int, u, Some(w)));
    let pair = choose|pair: (K::Real, K::Real)| #[trigger]
        is_beam_width(k, u@, n, Some(pair)) && w == pair.0;
    let shown = run.record.final_intensity;
    let r = law_width_is_the_spread_of_the_intensity(k, n, u, shown, pair, worth, place, factor);
    law_centroid_balances_the_intensity(k, n, u, shown, r.0, r.1, worth, place);
    worth(r.1.0)
}

/// A beam that is the same under exchange of the axes is centred alike along both, and
/// is as wide as it is high.
pub proof fn law_round_beam_is_as_wide_as_high<K: Optics>(
    k: K,
    n: nat,
    u: Plane<K::Complex>,
    p: Plane<K::Real>,
    widths: (K::Real, K::Real),
    worth: spec_fn(K::Real) -> real,
    place: spec_fn(int) -> real,
    factor: real,
) -> (r: (K::Real, (K::Real, K::Real)))
    requires
        counts_reproducibly(k),
        weighs_places(k, worth, place),
        spreads_exactly(k, worth, place, factor),
        u@.len() == n,
        n <= usize::MAX,
        is_intensity(k, n as int, u, p),
        is_round(p@, n as int),
        is_beam_width(k, u@, n, Some(widths)),
    ensures
        is_centroid(k, u@, n, r.0, Some(r.1)),
        worth(r.1.0) == worth(r.1.1),
        worth(widths.0) * worth(widths.0) == worth(widths.1) * worth(widths.1),
{
    let r = law_width_is_the_spread_of_the_intensity(k, n, u, p, widths, worth, place, factor);
    law_centroid_balances_the_intensity(k, n, u, p, r.0, r.1, worth, place);
    lemma_sums_turn(
        |j: int, i: int| worth(p@[j][i]) * place(i),
        |j: int, i: int| worth(p@[j][i]) * place(j),
        n,
        n,
    );
    lemma_cancels(worth(r.1.0), worth(r.1.1), worth(r.0));
    let c = worth(r.1.0);
    lemma_sums_turn(
        |j: int, i: int| worth(p@[j][i]) * ((place(i) - c) * (place(i) - c)),
        |j: int, i: int| worth(p@[j][i]) * ((place(j) - c) * (place(j) - c)),
        n,
        n,
    );
    lemma_cancels(
        worth(widths.0) * worth(widths.0),
        worth(widths.1) * worth(widths.1),
        worth(r.0),
    );
    r
}

/// The power inside the edge is the intensity of the samples whose column and whose row
/// are both inside it, and the whole is that of all samples.
pub proof fn law_contained_power_is_that_of_the_interior<K: Optics>(
    k: K,
    n: nat,
    u: Plane<K::Complex>,
    p: Plane<K::Real>,
    inside: K::Real,
    total: K::Real,
    worth: spec_fn(K::Real) -> real,
    place: spec_fn(int) -> real,
    inner: spec_fn(int) -> bool,
)
    requires
        counts_reproducibly(k),
        weighs_places(k, worth, place),
        forall|i: usize, b: bool| #[trigger]
            call_ensures(K::is_interior, (&k, i), b) ==> b == inner(i as int),
        u@.len() == n,
        n <= usize::MAX,
        is_intensity(k, n as int, u, p),
        are_containment_sums(k, u@, n, inside, total),
    ensures
        worth(total) == total_of(worth, p@, n),
        worth(inside) == plane_sum(
            |j: int, i: int|
                if inner(j) && inner(i) {
                    worth(p@[j][i])
                } else {
                    0real
                },
            n,
            n,
        ),
{
    let zero = choose|zero: K::Real| #[trigger]
        call_ensures(K::zero, (&k,), zero) && is_fold(
            u@,
            n,
            (zero, zero),
            adds_containment(k),
            (inside, total),
        );
    let (init, out) = ((zero, zero), (inside, total));
    let narrow = |s: (K::Real, K::Real), j: int, i: int, a: K::Complex, next: (K::Real, K::Real)|
        adds_containment(k)(s, j, i, a, next) && (0 <= j < n && 0 <= i < n ==> a == u@[j][i]);
    assert(is_fold(u@, n, init, narrow, out)) by {
        let run = choose|run: Seq<(K::Real, K::Real)>| #[trigger]
            is_fold_run(u@, n, init, adds_containment(k), run) && run.last() == out;
        assert(is_fold_run(u@, n, init, narrow, run));
    }
    let part = |j: int, i: int, a: K::Complex|
        if inner(j) && inner(i) {
            worth(p@[j][i])
        } else {
            0real
        };
    let whole = |j: int, i: int, a: K::Complex| worth(p@[j][i]);
    assert forall|s: (K::Real, K::Real), j: int, i: int, a: K::Complex, next: (K::Real, K::Real)|
        #[trigger] narrow(s, j, i, a, next) && 0 <= j < u@.len() && 0 <= i < n implies worth(next.0)
        == worth(s.0) + part(j, i, a) && worth(next.1) == worth(s.1) + whole(j, i, a) by {
        assert(a == u@[j][i]);
        assert(call_ensures(K::intensity, (&k, u@[j][i]), p@[j][i]));
        reveal(counts_reproducibly);
        reveal(weighs_places);
    }
    assert(worth(zero) == 0real) by {
        reveal(weighs_places);
    }
    lemma_fold_adds(u@, n, init, narrow, out, |s: (K::Real, K::Real)| worth(s.0), part);
    lemma_fold_adds(u@, n, init, narrow, out, |s: (K::Real, K::Real)| worth(s.1), whole);
    lemma_plane_sums_agree(
        |j: int, i: int| part(j, i, u@[j][i]),
        |j: int, i: int|
            if inner(j) && inner(i) {
                worth(p@[j][i])
            } else {
                0real
            },
        n,
        n,
    );
    lemma_plane_sums_agree(
        |j: int, i: int| whole(j, i, u@[j][i]),
        |j: int, i: int| worth(p@[j][i]),
        n,
        n,
    );
}

/// Distance of a position from the origin of a transform of length `n`, by the shorter
/// way round.
pub open spec fn wrapped(n: int, i: int) -> int {
    if i < n / 2 {
        i
    } else {
        i - n
    }
}

/// The response of free space is laid out about the origin: a sample holds the response
/// at its distance from the first position, along each axis by the shorter way round,
/// x along a row.
pub proof fn law_response_is_laid_out_about_the_origin<K: Optics>(
    k: K,
    n: int,
    dz: K::Real,
    h: Plane<K::Complex>,
) -> (p: Plane<K::Complex>)
    requires
        is_grid_size(n),
        is_kernel(k, n, dz, DiffractionMethod::FresnelImpulseResponse, h),
    ensures
        is_square(p, n),
        call_ensures(K::forward, (&k, &p), h),
        forall|j: int, i: int|
            0 <= j < n && 0 <= i < n ==> call_ensures(
                K::impulse,
                (&k, dz, wrapped(n, i) as isize, wrapped(n, j) as isize),
                #[trigger] p@[j][i],
            ),
{
    let p = choose|p: Plane<K::Complex>| #[trigger]
        is_rolled_impulse(k, n, dz, p) && call_ensures(K::forward, (&k, &p), h);
    assert forall|i: int| 0 <= i < n implies #[trigger] offset_of(n, shifted_of(n, i)) == wrapped(
        n,
        i,
    ) by {
        if i < n / 2 {
            lemma_small_mod((i + n / 2) as nat, n as nat);
        } else {
            lemma_mod_add_multiples_vanish(i - n / 2, n);
            lemma_small_mod((i - n / 2) as nat, n as nat);
            assert(n + (i - n / 2) == i + n / 2);
        }
    }
    p
}

/// A launched beam is centred: samples at opposite distances from the middle of the grid,
/// along either axis, have the same amplitude.
pub proof fn law_launched_beam_is_centred<K: Optics>(
    k: K,
    grid: Grid<K::Real>,
    wavelength: K::Real,
    w0: K::Real,
    f: Field<K::Real, K::Complex>,
    j: int,
    i: int,
)
    requires
        is_launch(k, grid, wavelength, w0, f),
        forall|x: isize, z: isize, y: isize, a: K::Complex, b: K::Complex|
            #![trigger call_ensures(K::gaussian, (&k, w0, x, y), a), call_ensures(K::gaussian, (&k, w0, z, y), b)]
            call_ensures(K::gaussian, (&k, w0, x, y), a) && call_ensures(
                K::gaussian,
                (&k, w0, z, y),
                b,
            ) && x == -z ==> a == b,
        forall|x: isize, y: isize, z: isize, a: K::Complex, b: K::Complex|
            #![trigger call_ensures(K::gaussian, (&k, w0, x, y), a), call_ensures(K::gaussian, (&k, w0, x, z), b)]
            call_ensures(K::gaussian, (&k, w0, x, y), a) && call_ensures(
                K::gaussian,
                (&k, w0, x, z),
                b,
            ) && y == -z ==> a == b,
        0 <= j < grid.n,
        0 < i < grid.n,
    ensures
        f.u@[j][i] == f.u@[j][grid.n - i],
        f.u@[i][j] == f.u@[grid.n - i][j],
{
    let n = grid.n as int;
    let (x, z) = (offset_of(n, i) as isize, offset_of(n, n - i) as isize);
    let y = offset_of(n, j) as isize;
    assert(x == -z);
    assert(call_ensures(K::gaussian, (&k, w0, x, y), f.u@[j][i]));
    assert(call_ensures(K::gaussian, (&k, w0, z, y), f.u@[j][n - i]));
    assert(call_ensures(K::gaussian, (&k, w0, y, x), f.u@[i][j]));
    assert(call_ensures(K::gaussian, (&k, w0, y, z), f.u@[n - i][j]));
}

} // verus!

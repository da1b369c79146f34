//! Symmetries of a step of the gas on rings: equal lines stay equal, uniform lines
//! stay as they are, and a slab of equal rings is a line.
use crate::euler1d::{Conserved, N_GHOST};
use crate::euler2d::{
    are_cell_faces, are_swept, axial_sweep, axial_sweeps, first_bad, is_advanced, is_dir_hllc,
    is_line_outcome, is_mirror, is_r_sweep, is_rejected, is_split_step, is_step_outcome,
    is_sweep_end, is_x_sweep, left_faces, lemma_x_sweep_keeps_shape, metric_at, radial_sweep,
    radial_sweeps, right_faces, ring_weights, same_weight, with_columns, with_rows, Boundary2d,
    Conserved2d, Dir, Domain2d, Euler2dError, Faces, Geometry, Metric, Scheme2d, Stage2d, Sweep,
};
use crate::plane::column_of;
use crate::reconstruct::{
    aligned, are_weighted_faces, carries_nothing, carries_reproducibly, is_unit, is_weighted_update,
    law_uniform_flux_moves_nothing, lemma_aligned_faces, lemma_aligned_hllc, lemma_aligned_update,
    lemma_dir_hllc_is_one, lemma_uniform_weighted_faces, lemma_weighted_faces_are_one,
    lemma_weighted_update_is_one,
};
use crate::riemann::{agrees, cancels, is_hllc, is_reproducible};
use vstd::prelude::*;

verus! {

/// Every operation of a sweep is a function of its arguments.
pub open spec fn is_deterministic<K: Scheme2d>(scheme: K) -> bool {
    &&& carries_reproducibly(scheme)
    &&& forall|a: K::Real, x: K::Real, y: K::Real|
        #![trigger call_ensures(K::negate, (&scheme, a), x), call_ensures(K::negate, (&scheme, a), y)]
        call_ensures(K::negate, (&scheme, a), x) && call_ensures(K::negate, (&scheme, a), y) ==> x
            == y
    &&& forall|dt: K::Real, volume: K::Real, x: K::Real, y: K::Real|
        #![trigger call_ensures(K::half_weight, (&scheme, dt, volume), x), call_ensures(K::half_weight, (&scheme, dt, volume), y)]
        call_ensures(K::half_weight, (&scheme, dt, volume), x) && call_ensures(
            K::half_weight,
            (&scheme, dt, volume),
            y,
        ) ==> x == y
    &&& forall|dt: K::Real, volume: K::Real, x: K::Real, y: K::Real|
        #![trigger call_ensures(K::weight, (&scheme, dt, volume), x), call_ensures(K::weight, (&scheme, dt, volume), y)]
        call_ensures(K::weight, (&scheme, dt, volume), x) && call_ensures(
            K::weight,
            (&scheme, dt, volume),
            y,
        ) ==> x == y
}

proof fn lemma_cell_faces_are_one<K: Scheme2d>(
    scheme: K,
    dir: Dir,
    dt: K::Real,
    a: Conserved2d<K::Real>,
    b: Conserved2d<K::Real>,
    c: Conserved2d<K::Real>,
    metric: Metric<K::Real>,
    geometric: bool,
    f: Faces<K::Real>,
    g: Faces<K::Real>,
)
    requires
        is_deterministic(scheme),
        are_cell_faces(scheme, dir, dt, a, b, c, metric, geometric, f),
        are_cell_faces(scheme, dir, dt, a, b, c, metric, geometric, g),
    ensures
        f == g,
{
    let half = choose|half: K::Real| #[trigger]
        call_ensures(K::half_weight, (&scheme, dt, metric.volume), half) && are_weighted_faces(
            scheme,
            half,
            dir,
            a,
            b,
            c,
            metric,
            geometric,
            f,
        );
    lemma_weighted_faces_are_one(scheme, half, dir, a, b, c, metric, geometric, f, g);
}

proof fn lemma_advance_is_one<K: Scheme2d>(
    scheme: K,
    dir: Dir,
    dt: K::Real,
    u: Conserved2d<K::Real>,
    lo: Conserved2d<K::Real>,
    hi: Conserved2d<K::Real>,
    metric: Metric<K::Real>,
    geometric: bool,
    centre: Conserved2d<K::Real>,
    v: Conserved2d<K::Real>,
    w: Conserved2d<K::Real>,
)
    requires
        is_deterministic(scheme),
        is_advanced(scheme, dir, dt, u, lo, hi, metric, geometric, centre, v),
        is_advanced(scheme, dir, dt, u, lo, hi, metric, geometric, centre, w),
    ensures
        v == w,
{
    let weight = choose|weight: K::Real| #[trigger]
        call_ensures(K::weight, (&scheme, dt, metric.volume), weight) && is_weighted_update(
            scheme,
            weight,
            dir,
            u,
            lo,
            hi,
            metric,
            geometric,
            centre,
            v,
        );
    lemma_weighted_update_is_one(
        scheme,
        weight,
        dir,
        u,
        lo,
        hi,
        metric,
        geometric,
        centre,
        v,
        w,
    );
}

/// Two sweeps that differ at most in which line of the domain they are.
pub open spec fn same_but_place<K: Scheme2d>(a: Sweep<K>, b: Sweep<K>) -> bool {
    a == (Sweep { fixed: a.fixed, ..b })
}

/// A line's update depends on its cells and not on where the line is: equal
/// lines stay equal.
pub proof fn law_equal_lines_stay_equal<K: Scheme2d>(
    first: Sweep<K>,
    second: Sweep<K>,
    updated1: Seq<Conserved2d<K::Real>>,
    updated2: Seq<Conserved2d<K::Real>>,
    escaped1: K::Real,
    escaped2: K::Real,
)
    requires
        first.valid(),
        same_but_place(first, second),
        is_deterministic(first.scheme),
        is_line_outcome(first, Ok((updated1, escaped1))),
        is_line_outcome(second, Ok((updated2, escaped2))),
    ensures
        updated1 == updated2,
{
    let (p1, f1) = choose|p: Seq<Conserved2d<K::Real>>, f: Seq<Faces<K::Real>>| #[trigger]
        first.is_outcome(p, f, Ok((updated1, escaped1)));
    let (p2, f2) = choose|p: Seq<Conserved2d<K::Real>>, f: Seq<Faces<K::Real>>| #[trigger]
        second.is_outcome(p, f, Ok((updated2, escaped2)));
    let n = first.line.len() as int;
    assert forall|k: int| 0 <= k < n + 4 implies p1[k] == p2[k] by {
        if k < N_GHOST {
        } else if k < N_GHOST + n {
            assert(p1.subrange(N_GHOST as int, N_GHOST + n)[k - N_GHOST] == first.line[k - N_GHOST]);
            assert(p2.subrange(N_GHOST as int, N_GHOST + n)[k - N_GHOST] == first.line[k - N_GHOST]);
        }
    }
    assert(p1 =~= p2);
    assert forall|m: int| 0 <= m < n + 2 implies f1[m] == f2[m] by {
        lemma_cell_faces_are_one(
            first.scheme,
            first.dir,
            first.dt,
            p1[m],
            p1[m + 1],
            p1[m + 2],
            metric_at(first.areas, first.volumes, m + 1),
            first.geometric,
            f1[m],
            f2[m],
        );
    }
    assert(f1 =~= f2);
    let g1 = choose|g: Seq<Conserved2d<K::Real>>|
        {
            &&& #[trigger] first.are_fluxes(f1, g)
            &&& first.is_update(f1, g, updated1)
            &&& first.is_escaped(g, escaped1)
        };
    let g2 = choose|g: Seq<Conserved2d<K::Real>>|
        {
            &&& #[trigger] second.are_fluxes(f2, g)
            &&& second.is_update(f2, g, updated2)
            &&& second.is_escaped(g, escaped2)
        };
    assert forall|j: int| 0 <= j < n + 1 implies g1[j] == g2[j] by {
        assert(is_dir_hllc(first.scheme, f1[j].right, f1[j + 1].left, first.dir, g1[j]));
        assert(is_dir_hllc(first.scheme, f1[j].right, f1[j + 1].left, first.dir, g2[j]));
        lemma_dir_hllc_is_one(
            first.scheme,
            f1[j].right,
            f1[j + 1].left,
            first.dir,
            g1[j],
            g2[j],
        );
    }
    assert(g1 =~= g2);
    assert forall|i: int| 0 <= i < n implies updated1[i] == updated2[i] by {
        lemma_advance_is_one(
            first.scheme,
            first.dir,
            first.dt,
            first.line[i],
            g1[i],
            g1[i + 1],
            metric_at(first.areas, first.volumes, N_GHOST + i),
            first.geometric,
            f1[i + 1].centre,
            updated1[i],
            updated2[i],
        );
    }
    assert(updated1 =~= updated2);
}

/// A flow that does not vary across the rings keeps not varying: rings that
/// are equal before an axial sweep are equal after it.
pub proof fn law_equal_rings_stay_equal<K: Scheme2d>(
    pre: Domain2d<K>,
    dt: K::Real,
    post: Domain2d<K>,
    j: int,
    l: int,
)
    requires
        pre.valid(),
        is_deterministic(pre.scheme),
        is_x_sweep(pre, dt, post, Ok(())),
        0 <= j < pre.cells.len(),
        0 <= l < pre.cells.len(),
        pre.cells[j] == pre.cells[l],
    ensures
        post.cells[j] == post.cells[l],
{
    let (one, dx, lines, run) = choose|
        one: K::Real,
        dx: K::Real,
        lines: Seq<(Seq<Conserved2d<K::Real>>, K::Real)>,
        run: Seq<K::Real>,
    |
        {
            let sweeps = axial_sweeps(pre, dt, one, dx);
            &&& #[trigger] call_ensures(K::one, (&pre.scheme,), one)
            &&& #[trigger] call_ensures(K::dx, (&pre.scheme,), dx)
            &&& #[trigger] are_swept(
                pre.scheme,
                axial_sweeps(pre, dt, one, dx),
                ring_weights(pre),
                lines,
                run,
            )
            &&& is_sweep_end(
                pre,
                sweeps,
                pre.cells.len() as int,
                with_rows(pre.cells, lines),
                lines,
                run,
                post,
                Ok(()),
            )
        };
    let sweeps = axial_sweeps(pre, dt, one, dx);
    assert(is_line_outcome(sweeps(j), Ok(lines[j])));
    assert(is_line_outcome(sweeps(l), Ok(lines[l])));
    law_equal_lines_stay_equal(
        sweeps(j),
        sweeps(l),
        lines[j].0,
        lines[l].0,
        lines[j].1,
        lines[l].1,
    );
}

/// A flow that does not vary along the axis keeps not varying: columns that
/// are equal before a radial sweep are equal after it.
pub proof fn law_equal_columns_stay_equal<K: Scheme2d>(
    pre: Domain2d<K>,
    dt: K::Real,
    flips: bool,
    well_balanced: bool,
    post: Domain2d<K>,
    i: int,
    k: int,
)
    requires
        pre.valid(),
        is_deterministic(pre.scheme),
        is_r_sweep(pre, dt, flips, well_balanced, post, Ok(())),
        0 <= i < pre.n_x,
        0 <= k < pre.n_x,
        column_of(pre.cells, i) == column_of(pre.cells, k),
    ensures
        column_of(post.cells, i) == column_of(post.cells, k),
{
    let (dx, lines, run) = choose|
        dx: K::Real,
        lines: Seq<(Seq<Conserved2d<K::Real>>, K::Real)>,
        run: Seq<K::Real>,
    |
        {
            let sweeps = radial_sweeps(pre, dt, flips, well_balanced);
            &&& #[trigger] call_ensures(K::dx, (&pre.scheme,), dx)
            &&& #[trigger] are_swept(
                pre.scheme,
                radial_sweeps(pre, dt, flips, well_balanced),
                same_weight(dx),
                lines,
                run,
            )
            &&& is_sweep_end(
                pre,
                sweeps,
                pre.n_x as int,
                with_columns(pre.cells, lines),
                lines,
                run,
                post,
                Ok(()),
            )
        };
    let sweeps = radial_sweeps(pre, dt, flips, well_balanced);
    assert(is_line_outcome(sweeps(i), Ok(lines[i])));
    assert(is_line_outcome(sweeps(k), Ok(lines[k])));
    law_equal_lines_stay_equal(
        sweeps(i),
        sweeps(k),
        lines[i].0,
        lines[k].0,
        lines[i].1,
        lines[k].1,
    );
    assert(column_of(post.cells, i) =~= column_of(post.cells, k));
}

/// Every cell that a sweep reconstructs has interfaces of one area.
pub open spec fn is_flat<K: Scheme2d>(sweep: Sweep<K>) -> bool {
    forall|k: int|
        0 <= k < sweep.volumes.len() ==> #[trigger] metric_at(sweep.areas, sweep.volumes, k).lower
            == metric_at(sweep.areas, sweep.volumes, k).upper
}

/// Every cell of a sweep is `c`, and so are its images at the mirroring ends.
pub open spec fn is_uniform<K: Scheme2d>(sweep: Sweep<K>, c: Conserved2d<K::Real>) -> bool {
    &&& forall|i: int| 0 <= i < sweep.line.len() ==> #[trigger] sweep.line[i] == c
    &&& sweep.lo.spec_mirrors() || sweep.hi.spec_mirrors() ==> forall|v: Conserved2d<K::Real>|
        #[trigger] is_mirror(sweep.scheme, sweep.dir, sweep.flips, c, v) ==> v == c
}

proof fn lemma_uniform_faces<K: Scheme2d>(
    sweep: Sweep<K>,
    padded: Seq<Conserved2d<K::Real>>,
    faces: Seq<Faces<K::Real>>,
    c: Conserved2d<K::Real>,
    nothing: K::Real,
)
    requires
        sweep.valid(),
        is_deterministic(sweep.scheme),
        sweep.are_faces(padded, faces),
        is_uniform(sweep, c),
        is_flat(sweep),
        cancels(sweep.scheme, nothing),
    ensures
        forall|m: int|
            0 <= m < faces.len() ==> (#[trigger] faces[m]).left == c && faces[m].right == c,
{
    let n = sweep.line.len() as int;
    assert forall|k: int| 0 <= k < n + 4 implies #[trigger] padded[k] == c by {
        if k < N_GHOST {
            assert(sweep.line[N_GHOST - 1 - k] == c);
            assert(sweep.line[0] == c);
        } else if k < N_GHOST + n {
            assert(padded.subrange(N_GHOST as int, N_GHOST + n)[k - N_GHOST] == sweep.line[k
                - N_GHOST]);
        } else {
            assert(sweep.line[2 * n + N_GHOST - 1 - k] == c);
            assert(sweep.line[n - 1] == c);
        }
    }
    let (k, dir) = (sweep.scheme, sweep.dir);
    assert forall|m: int| 0 <= m < n + 2 implies (#[trigger] faces[m]).left == c && faces[m].right
        == c by {
        let metric = metric_at(sweep.areas, sweep.volumes, m + 1);
        assert(metric.lower == metric.upper);
        assert(padded[m] == c && padded[m + 1] == c && padded[m + 2] == c);
        assert(are_cell_faces(k, dir, sweep.dt, c, c, c, metric, sweep.geometric, faces[m]));
        let half = choose|half: K::Real| #[trigger]
            call_ensures(K::half_weight, (&k, sweep.dt, metric.volume), half)
                && are_weighted_faces(
                k,
                half,
                dir,
                c,
                c,
                c,
                metric,
                sweep.geometric,
                faces[m],
            );
        lemma_uniform_weighted_faces(
            k,
            half,
            dir,
            c,
            metric,
            sweep.geometric,
            faces[m],
            nothing,
        );
    }
}

proof fn lemma_uniform_update<K: Scheme2d>(
    sweep: Sweep<K>,
    faces: Seq<Faces<K::Real>>,
    fluxes: Seq<Conserved2d<K::Real>>,
    updated: Seq<Conserved2d<K::Real>>,
    c: Conserved2d<K::Real>,
    nothing: K::Real,
)
    requires
        sweep.valid(),
        is_deterministic(sweep.scheme),
        faces.len() == sweep.line.len() + 2,
        forall|m: int|
            0 <= m < faces.len() ==> (#[trigger] faces[m]).left == c && faces[m].right == c,
        sweep.are_fluxes(faces, fluxes),
        sweep.is_update(faces, fluxes, updated),
        is_uniform(sweep, c),
        is_flat(sweep),
        cancels(sweep.scheme, nothing),
    ensures
        updated == sweep.line,
{
    let n = sweep.line.len() as int;
    let (k, dir) = (sweep.scheme, sweep.dir);
    assert forall|j: int| 0 <= j < n + 1 implies #[trigger] fluxes[j] == fluxes[0] by {
        assert(faces[j].right == c && faces[j + 1].left == c);
        assert(faces[0].right == c && faces[1].left == c);
        assert(is_dir_hllc(k, c, c, dir, fluxes[j]));
        assert(is_dir_hllc(k, c, c, dir, fluxes[0]));
        lemma_dir_hllc_is_one(k, c, c, dir, fluxes[j], fluxes[0]);
    }
    assert forall|i: int| 0 <= i < n implies updated[i] == sweep.line[i] by {
        assert(fluxes[i] == fluxes[0] && fluxes[i + 1] == fluxes[0]);
        let metric = metric_at(sweep.areas, sweep.volumes, N_GHOST + i);
        assert(metric.lower == metric.upper);
        assert(sweep.line[i] == c);
        let f = fluxes[0];
        let centre = faces[i + 1].centre;
        assert(is_advanced(
            k,
            dir,
            sweep.dt,
            c,
            f,
            f,
            metric,
            sweep.geometric,
            centre,
            updated[i],
        ));
        let weight = choose|weight: K::Real| #[trigger]
            call_ensures(K::weight, (&k, sweep.dt, metric.volume), weight) && is_weighted_update(
                k,
                weight,
                dir,
                c,
                f,
                f,
                metric,
                sweep.geometric,
                centre,
                updated[i],
            );
        assert(is_reproducible(k)) by {
            reveal(carries_reproducibly);
        }
        law_uniform_flux_moves_nothing(
            k,
            weight,
            dir,
            c,
            f,
            metric,
            sweep.geometric,
            centre,
            updated[i],
            nothing,
        );
    }
    assert(updated =~= sweep.line);
}

/// A uniform line on a flat metric is a fixed point, where equal values cancel and
/// the images of the cell at the mirroring ends, if there are any, are the cell
/// itself: a stream between open ends included. Its sweep succeeds where the cell is
/// not found non-physical.
pub proof fn law_uniform_line_is_fixed<K: Scheme2d>(
    sweep: Sweep<K>,
    r: Result<(Seq<Conserved2d<K::Real>>, K::Real), Euler2dError>,
    c: Conserved2d<K::Real>,
    nothing: K::Real,
)
    requires
        sweep.valid(),
        is_deterministic(sweep.scheme),
        is_line_outcome(sweep, r),
        is_uniform(sweep, c),
        is_flat(sweep),
        cancels(sweep.scheme, nothing),
    ensures
        r matches Ok((updated, _)) ==> updated == sweep.line,
        !call_ensures(K::is_physical, (&sweep.scheme, c), false) ==> r is Ok,
{
    let (padded, faces) = choose|
        padded: Seq<Conserved2d<K::Real>>,
        faces: Seq<Faces<K::Real>>,
    | #[trigger]
        sweep.is_outcome(padded, faces, r);
    lemma_uniform_faces(sweep, padded, faces, c, nothing);
    let (left, right) = (left_faces(faces), right_faces(faces));
    assert forall|k: int| 0 <= k < left.len() implies #[trigger] left[k] == c by {
        assert(faces[k].left == c);
    }
    assert forall|k: int| 0 <= k < right.len() implies #[trigger] right[k] == c by {
        assert(faces[k].right == c);
    }
    match r {
        Ok((updated, escaped)) => {
            let fluxes = choose|fluxes: Seq<Conserved2d<K::Real>>|
                {
                    &&& #[trigger] sweep.are_fluxes(faces, fluxes)
                    &&& sweep.is_update(faces, fluxes, updated)
                    &&& sweep.is_escaped(fluxes, escaped)
                };
            lemma_uniform_update(sweep, faces, fluxes, updated, c, nothing);
        },
        Err(e) => {
            if !call_ensures(K::is_physical, (&sweep.scheme, c), false) {
                assert(forall|k: int| !#[trigger] first_bad(sweep.scheme, left, k));
                assert(forall|k: int| !#[trigger] first_bad(sweep.scheme, right, k));
                let (fluxes, updated, k) = choose|
                    fluxes: Seq<Conserved2d<K::Real>>,
                    updated: Seq<Conserved2d<K::Real>>,
                    k: int,
                |
                    {
                        &&& #[trigger] sweep.are_fluxes(faces, fluxes)
                        &&& sweep.is_update(faces, fluxes, updated)
                        &&& #[trigger] first_bad(sweep.scheme, updated, k)
                        &&& sweep.names_cell(e, Stage2d::ConservativeUpdate(sweep.dir), k)
                    };
                lemma_uniform_update(sweep, faces, fluxes, updated, c, nothing);
                assert(updated[k] == c);
            }
        },
    }
}

/// A two-dimensional scheme, swept along the axis, has the arithmetic of a
/// one-dimensional one: their operations agree, the areas are units, the shares of a
/// flux difference are the same, equal values cancel and a flow with no momentum
/// across the line stays so.
pub open spec fn twins<K: Scheme2d, L: crate::euler1d::Scheme1d<Real = K::Real>>(
    scheme: K,
    line_scheme: L,
    dt: K::Real,
    nothing: K::Real,
) -> bool {
    &&& agrees(scheme, line_scheme)
    &&& cancels(scheme, nothing)
    &&& carries_nothing(scheme, nothing)
    &&& forall|x: K::Real| #[trigger] call_ensures(K::one, (&scheme,), x) ==> is_unit(scheme, x)
    &&& forall|dx: K::Real, x: K::Real|
        #![trigger call_ensures(K::half_weight, (&scheme, dt, dx), x)]
        call_ensures(K::dx, (&scheme,), dx) && call_ensures(K::half_weight, (&scheme, dt, dx), x)
            ==> call_ensures(L::half_weight, (&line_scheme, dt), x)
    &&& forall|dx: K::Real, x: K::Real|
        #![trigger call_ensures(K::weight, (&scheme, dt, dx), x)]
        call_ensures(K::dx, (&scheme,), dx) && call_ensures(K::weight, (&scheme, dt, dx), x)
            ==> call_ensures(L::weight, (&line_scheme, dt), x)
}

proof fn lemma_twin_faces<K: Scheme2d, L: crate::euler1d::Scheme1d<Real = K::Real>>(
    scheme: K,
    line_scheme: L,
    dt: K::Real,
    a: Conserved<K::Real>,
    b: Conserved<K::Real>,
    c: Conserved<K::Real>,
    metric: Metric<K::Real>,
    f: Faces<K::Real>,
    nothing: K::Real,
) -> (g: (Conserved<K::Real>, Conserved<K::Real>))
    requires
        twins(scheme, line_scheme, dt, nothing),
        call_ensures(K::one, (&scheme,), metric.lower),
        call_ensures(K::one, (&scheme,), metric.upper),
        call_ensures(K::dx, (&scheme,), metric.volume),
        are_cell_faces(
            scheme,
            Dir::Axial,
            dt,
            aligned(nothing, a),
            aligned(nothing, b),
            aligned(nothing, c),
            metric,
            false,
            f,
        ),
    ensures
        crate::euler1d::are_cell_faces(line_scheme, dt, a, b, c, g),
        f.left == aligned(nothing, g.0),
        f.right == aligned(nothing, g.1),
{
    let half = choose|half: K::Real| #[trigger]
        call_ensures(K::half_weight, (&scheme, dt, metric.volume), half) && are_weighted_faces(
            scheme,
            half,
            Dir::Axial,
            aligned(nothing, a),
            aligned(nothing, b),
            aligned(nothing, c),
            metric,
            false,
            f,
        );
    let g = lemma_aligned_faces(scheme, line_scheme, half, a, b, c, metric, f, nothing);
    assert(call_ensures(L::half_weight, (&line_scheme, dt), half));
    g
}

proof fn lemma_twin_update<K: Scheme2d, L: crate::euler1d::Scheme1d<Real = K::Real>>(
    scheme: K,
    line_scheme: L,
    dt: K::Real,
    u: Conserved<K::Real>,
    lo: Conserved<K::Real>,
    hi: Conserved<K::Real>,
    metric: Metric<K::Real>,
    centre: Conserved2d<K::Real>,
    v: Conserved2d<K::Real>,
    nothing: K::Real,
) -> (w: Conserved<K::Real>)
    requires
        twins(scheme, line_scheme, dt, nothing),
        call_ensures(K::one, (&scheme,), metric.lower),
        call_ensures(K::one, (&scheme,), metric.upper),
        call_ensures(K::dx, (&scheme,), metric.volume),
        is_advanced(
            scheme,
            Dir::Axial,
            dt,
            aligned(nothing, u),
            aligned(nothing, lo),
            aligned(nothing, hi),
            metric,
            false,
            centre,
            v,
        ),
    ensures
        crate::euler1d::is_advanced(line_scheme, dt, u, lo, hi, w),
        v == aligned(nothing, w),
{
    let weight = choose|weight: K::Real| #[trigger]
        call_ensures(K::weight, (&scheme, dt, metric.volume), weight) && is_weighted_update(
            scheme,
            weight,
            Dir::Axial,
            aligned(nothing, u),
            aligned(nothing, lo),
            aligned(nothing, hi),
            metric,
            false,
            centre,
            v,
        );
    let w = lemma_aligned_update(
        scheme,
        line_scheme,
        weight,
        u,
        lo,
        hi,
        metric,
        centre,
        v,
        nothing,
    );
    assert(call_ensures(L::weight, (&line_scheme, dt), weight));
    w
}

/// A sweep along the axis with transmissive ends, on the aligned cells of a line and
/// the metric of the axis.
pub open spec fn is_aligned_sweep<K: Scheme2d>(
    sweep: Sweep<K>,
    cells: Seq<Conserved<K::Real>>,
    metric: Metric<K::Real>,
    nothing: K::Real,
) -> bool {
    &&& sweep.valid()
    &&& sweep.lo == Boundary2d::Transmissive
    &&& sweep.hi == Boundary2d::Transmissive
    &&& sweep.dir == Dir::Axial
    &&& !sweep.geometric
    &&& sweep.line == image_of(nothing, cells)
    &&& forall|k: int|
        0 <= k < sweep.volumes.len() ==> #[trigger] metric_at(sweep.areas, sweep.volumes, k)
            == metric
    &&& call_ensures(K::one, (&sweep.scheme,), metric.lower)
    &&& call_ensures(K::one, (&sweep.scheme,), metric.upper)
    &&& call_ensures(K::dx, (&sweep.scheme,), metric.volume)
}

/// The faces of an aligned sweep are the aligned faces of the line.
proof fn lemma_aligned_sweep_faces<K: Scheme2d, L: crate::euler1d::Scheme1d<Real = K::Real>>(
    sweep: Sweep<K>,
    padded: Seq<Conserved2d<K::Real>>,
    f2: Seq<Faces<K::Real>>,
    line_scheme: L,
    cells: Seq<Conserved<K::Real>>,
    metric: Metric<K::Real>,
    nothing: K::Real,
) -> (faces: Seq<(Conserved<K::Real>, Conserved<K::Real>)>)
    requires
        is_aligned_sweep(sweep, cells, metric, nothing),
        twins(sweep.scheme, line_scheme, sweep.dt, nothing),
        sweep.are_faces(padded, f2),
    ensures
        crate::euler1d::are_faces(
            line_scheme,
            sweep.dt,
            crate::euler1d::ghosted(cells, crate::euler1d::Boundary::Transmissive),
            faces,
        ),
        faces.len() == f2.len(),
        forall|m: int|
            0 <= m < faces.len() ==> (#[trigger] f2[m]).left == aligned(nothing, faces[m].0)
                && f2[m].right == aligned(nothing, faces[m].1),
{
    let n = cells.len() as int;
    let boundary = crate::euler1d::Boundary::Transmissive;
    let ghosted = crate::euler1d::ghosted(cells, boundary);
    assert forall|k: int| 0 <= k < n + 4 implies #[trigger] padded[k] == aligned(
        nothing,
        ghosted[k],
    ) by {
        if N_GHOST <= k < N_GHOST + n {
            assert(padded.subrange(N_GHOST as int, N_GHOST + n)[k - N_GHOST] == sweep.line[k
                - N_GHOST]);
        }
    }
    let (k, dt) = (sweep.scheme, sweep.dt);
    let faces = Seq::new(
        f2.len(),
        |m: int|
            choose|g: (Conserved<K::Real>, Conserved<K::Real>)|
                {
                    &&& #[trigger] crate::euler1d::are_cell_faces(
                        line_scheme,
                        dt,
                        ghosted[m],
                        ghosted[m + 1],
                        ghosted[m + 2],
                        g,
                    )
                    &&& f2[m].left == aligned(nothing, g.0)
                    &&& f2[m].right == aligned(nothing, g.1)
                },
    );
    assert forall|m: int| 0 <= m < n + 2 implies {
        &&& crate::euler1d::are_cell_faces(
            line_scheme,
            dt,
            ghosted[m],
            ghosted[m + 1],
            ghosted[m + 2],
            #[trigger] faces[m],
        )
        &&& f2[m].left == aligned(nothing, faces[m].0)
        &&& f2[m].right == aligned(nothing, faces[m].1)
    } by {
        assert(metric_at(sweep.areas, sweep.volumes, m + 1) == metric);
        assert(padded[m] == aligned(nothing, ghosted[m]));
        assert(padded[m + 1] == aligned(nothing, ghosted[m + 1]));
        assert(padded[m + 2] == aligned(nothing, ghosted[m + 2]));
        let g = lemma_twin_faces(
            k,
            line_scheme,
            dt,
            ghosted[m],
            ghosted[m + 1],
            ghosted[m + 2],
            metric,
            f2[m],
            nothing,
        );
    }
    assert forall|m: int| 0 <= m < faces.len() implies (#[trigger] f2[m]).left == aligned(
        nothing,
        faces[m].0,
    ) && f2[m].right == aligned(nothing, faces[m].1) by {
        assert(crate::euler1d::are_cell_faces(
            line_scheme,
            dt,
            ghosted[m],
            ghosted[m + 1],
            ghosted[m + 2],
            faces[m],
        ));
    }
    faces
}

/// The fluxes and the updated cells of an aligned sweep are the aligned ones of the
/// line.
proof fn lemma_aligned_sweep_update<K: Scheme2d, L: crate::euler1d::Scheme1d<Real = K::Real>>(
    sweep: Sweep<K>,
    f2: Seq<Faces<K::Real>>,
    g2: Seq<Conserved2d<K::Real>>,
    updated: Seq<Conserved2d<K::Real>>,
    line_scheme: L,
    cells: Seq<Conserved<K::Real>>,
    faces: Seq<(Conserved<K::Real>, Conserved<K::Real>)>,
    metric: Metric<K::Real>,
    nothing: K::Real,
) -> (r: (Seq<Conserved<K::Real>>, Seq<Conserved<K::Real>>))
    requires
        is_aligned_sweep(sweep, cells, metric, nothing),
        twins(sweep.scheme, line_scheme, sweep.dt, nothing),
        f2.len() == cells.len() + 2,
        faces.len() == f2.len(),
        forall|m: int|
            0 <= m < faces.len() ==> (#[trigger] f2[m]).left == aligned(nothing, faces[m].0)
                && f2[m].right == aligned(nothing, faces[m].1),
        sweep.are_fluxes(f2, g2),
        sweep.is_update(f2, g2, updated),
    ensures
        ({
            let (fluxes, out) = r;
            &&& crate::euler1d::are_fluxes(line_scheme, faces, fluxes)
            &&& are_line_updates(line_scheme, sweep.dt, cells, fluxes, out)
            &&& updated == image_of(nothing, out)
        }),
{
    let n = cells.len() as int;
    let (k, dt) = (sweep.scheme, sweep.dt);
    let fluxes = Seq::new(
        g2.len(),
        |j: int|
            choose|g: Conserved<K::Real>| #[trigger]
                is_hllc(line_scheme, faces[j].1, faces[j + 1].0, g) && g2[j] == aligned(nothing, g),
    );
    assert forall|j: int| 0 <= j < n + 1 implies {
        &&& is_hllc(line_scheme, faces[j].1, faces[j + 1].0, #[trigger] fluxes[j])
        &&& g2[j] == aligned(nothing, fluxes[j])
    } by {
        assert(f2[j].right == aligned(nothing, faces[j].1));
        assert(f2[j + 1].left == aligned(nothing, faces[j + 1].0));
        let g = lemma_aligned_hllc(k, line_scheme, faces[j].1, faces[j + 1].0, g2[j], nothing);
    }
    let out = Seq::new(
        cells.len(),
        |i: int|
            choose|w: Conserved<K::Real>| #[trigger]
                crate::euler1d::is_advanced(
                    line_scheme,
                    dt,
                    cells[i],
                    fluxes[i],
                    fluxes[i + 1],
                    w,
                ) && updated[i] == aligned(nothing, w),
    );
    assert forall|i: int| 0 <= i < n implies {
        &&& crate::euler1d::is_advanced(
            line_scheme,
            dt,
            cells[i],
            fluxes[i],
            fluxes[i + 1],
            #[trigger] out[i],
        )
        &&& updated[i] == aligned(nothing, out[i])
    } by {
        assert(metric_at(sweep.areas, sweep.volumes, N_GHOST + i) == metric);
        assert(sweep.line[i] == aligned(nothing, cells[i]));
        assert(g2[i] == aligned(nothing, fluxes[i]) && g2[i + 1] == aligned(
            nothing,
            fluxes[i + 1],
        ));
        let w = lemma_twin_update(
            k,
            line_scheme,
            dt,
            cells[i],
            fluxes[i],
            fluxes[i + 1],
            metric,
            f2[i + 1].centre,
            updated[i],
            nothing,
        );
    }
    assert(updated =~= image_of(nothing, out));
    (fluxes, out)
}

/// `out` are the cells of a line after the flux difference.
pub open spec fn are_line_updates<L: crate::euler1d::Scheme1d>(
    line_scheme: L,
    dt: L::Real,
    cells: Seq<Conserved<L::Real>>,
    fluxes: Seq<Conserved<L::Real>>,
    out: Seq<Conserved<L::Real>>,
) -> bool {
    &&& out.len() == cells.len()
    &&& forall|i: int|
        0 <= i < out.len() ==> crate::euler1d::is_advanced(
            line_scheme,
            dt,
            cells[i],
            fluxes[i],
            fluxes[i + 1],
            #[trigger] out[i],
        )
}

/// The planar path is the one-dimensional one. A sweep along a line with
/// transmissive ends, on aligned cells and the metric of the axis, is the aligned
/// one-dimensional reconstruction, fluxes and flux difference of those cells: the two
/// drivers differ in nothing. The aligned faces and updated cells are physical.
pub proof fn law_sweep_is_the_line_update<K: Scheme2d, L: crate::euler1d::Scheme1d<Real = K::Real>>(
    sweep: Sweep<K>,
    updated: Seq<Conserved2d<K::Real>>,
    escaped: K::Real,
    line_scheme: L,
    cells: Seq<Conserved<K::Real>>,
    metric: Metric<K::Real>,
    nothing: K::Real,
) -> (r: (Seq<(Conserved<K::Real>, Conserved<K::Real>)>, Seq<Conserved<K::Real>>, Seq<Conserved<K::Real>>))
    requires
        is_aligned_sweep(sweep, cells, metric, nothing),
        is_line_outcome(sweep, Ok((updated, escaped))),
        twins(sweep.scheme, line_scheme, sweep.dt, nothing),
    ensures
        ({
            let (faces, fluxes, out) = r;
            &&& crate::euler1d::are_faces(
                line_scheme,
                sweep.dt,
                crate::euler1d::ghosted(cells, crate::euler1d::Boundary::Transmissive),
                faces,
            )
            &&& crate::euler1d::are_fluxes(line_scheme, faces, fluxes)
            &&& are_line_updates(line_scheme, sweep.dt, cells, fluxes, out)
            &&& updated == image_of(nothing, out)
            &&& forall|m: int|
                0 <= m < faces.len() ==> call_ensures(
                    K::is_physical,
                    (&sweep.scheme, aligned(nothing, (#[trigger] faces[m]).0)),
                    true,
                ) && call_ensures(K::is_physical, (&sweep.scheme, aligned(nothing, faces[m].1)), true)
            &&& forall|i: int|
                0 <= i < out.len() ==> call_ensures(
                    K::is_physical,
                    (&sweep.scheme, aligned(nothing, #[trigger] out[i])),
                    true,
                )
        }),
{
    let (padded, f2) = choose|padded: Seq<Conserved2d<K::Real>>, faces: Seq<Faces<K::Real>>|
        #[trigger] sweep.is_outcome(padded, faces, Ok((updated, escaped)));
    let g2 = choose|fluxes: Seq<Conserved2d<K::Real>>|
        {
            &&& #[trigger] sweep.are_fluxes(f2, fluxes)
            &&& sweep.is_update(f2, fluxes, updated)
            &&& sweep.is_escaped(fluxes, escaped)
        };
    let faces = lemma_aligned_sweep_faces(
        sweep,
        padded,
        f2,
        line_scheme,
        cells,
        metric,
        nothing,
    );
    let (fluxes, out) = lemma_aligned_sweep_update(
        sweep,
        f2,
        g2,
        updated,
        line_scheme,
        cells,
        faces,
        metric,
        nothing,
    );
    assert forall|m: int| 0 <= m < faces.len() implies call_ensures(
        K::is_physical,
        (&sweep.scheme, aligned(nothing, (#[trigger] faces[m]).0)),
        true,
    ) && call_ensures(K::is_physical, (&sweep.scheme, aligned(nothing, faces[m].1)), true) by {
        assert(f2[m].left == aligned(nothing, faces[m].0));
        assert(left_faces(f2)[m] == aligned(nothing, faces[m].0));
        assert(right_faces(f2)[m] == aligned(nothing, faces[m].1));
    }
    assert forall|i: int| 0 <= i < out.len() implies call_ensures(
        K::is_physical,
        (&sweep.scheme, aligned(nothing, #[trigger] out[i])),
        true,
    ) by {
        assert(updated[i] == aligned(nothing, out[i]));
    }
    (faces, fluxes, out)
}

/// A line of one-dimensional cells as a ring.
pub open spec fn image_of<R>(nothing: R, cells: Seq<Conserved<R>>) -> Seq<Conserved2d<R>> {
    Seq::new(cells.len(), |i: int| aligned(nothing, cells[i]))
}

/// Equal values cancel, and nothing is its own opposite.
pub open spec fn is_level<K: Scheme2d>(scheme: K, nothing: K::Real) -> bool {
    &&& cancels(scheme, nothing)
    &&& forall|x: K::Real| #[trigger] call_ensures(K::negate, (&scheme, nothing), x) ==> x == nothing
}

/// Every ring of a domain has interfaces of one area, its ghosts included.
pub open spec fn has_flat_rings<K: Scheme2d>(d: Domain2d<K>) -> bool {
    forall|k: int|
        0 <= k < d.volumes.len() ==> #[trigger] metric_at(d.areas, d.volumes, k).lower == metric_at(
            d.areas,
            d.volumes,
            k,
        ).upper
}

/// Every ring of a domain is the image of one line of cells.
pub open spec fn has_equal_rings<K: Scheme2d>(
    d: Domain2d<K>,
    cells: Seq<Conserved<K::Real>>,
    nothing: K::Real,
) -> bool {
    &&& cells.len() == d.n_x
    &&& forall|j: int| 0 <= j < d.cells.len() ==> #[trigger] d.cells[j] == image_of(nothing, cells)
}

/// A radial sweep of equal rings changes none of them, and succeeds where no cell is
/// found non-physical.
proof fn lemma_level_sweep_is_idle<K: Scheme2d>(
    pre: Domain2d<K>,
    dt: K::Real,
    post: Domain2d<K>,
    r: Result<(), Euler2dError>,
    cells: Seq<Conserved<K::Real>>,
    nothing: K::Real,
)
    requires
        pre.valid(),
        pre.geometry == Geometry::Planar,
        is_deterministic(pre.scheme),
        is_r_sweep(pre, dt, true, true, post, r),
        has_equal_rings(pre, cells, nothing),
        has_flat_rings(pre),
        is_level(pre.scheme, nothing),
    ensures
        r is Ok ==> post == (Domain2d { escaped: post.escaped, ..pre }),
        (forall|i: int|
            0 <= i < cells.len() ==> !call_ensures(
                K::is_physical,
                (&pre.scheme, aligned(nothing, #[trigger] cells[i])),
                false,
            )) ==> r is Ok,
{
    let (dx, lines, run) = choose|
        dx: K::Real,
        lines: Seq<(Seq<Conserved2d<K::Real>>, K::Real)>,
        run: Seq<K::Real>,
    |
        {
            &&& #[trigger] call_ensures(K::dx, (&pre.scheme,), dx)
            &&& #[trigger] are_swept(
                pre.scheme,
                radial_sweeps(pre, dt, true, true),
                same_weight(dx),
                lines,
                run,
            )
            &&& is_sweep_end(
                pre,
                radial_sweeps(pre, dt, true, true),
                pre.n_x as int,
                with_columns(pre.cells, lines),
                lines,
                run,
                post,
                r,
            )
        };
    assert forall|i: int| 0 <= i < pre.n_x implies is_uniform(
        #[trigger] radial_sweep(pre, dt, true, true, i),
        aligned(nothing, cells[i]),
    ) && is_flat(radial_sweep(pre, dt, true, true, i)) && radial_sweep(
        pre,
        dt,
        true,
        true,
        i,
    ).valid() by {
        let sweep = radial_sweep(pre, dt, true, true, i);
        assert forall|l: int| 0 <= l < sweep.line.len() implies #[trigger] sweep.line[l] == aligned(
            nothing,
            cells[i],
        ) by {
            assert(pre.cells[l] == image_of(nothing, cells));
        }
    }
    match r {
        Ok(_) => {
            assert forall|j: int| 0 <= j < pre.cells.len() implies #[trigger] post.cells[j]
                == pre.cells[j] by {
                assert(pre.cells[j] == image_of(nothing, cells));
                assert forall|i: int| 0 <= i < pre.n_x implies post.cells[j][i]
                    == pre.cells[j][i] by {
                    let sweep = radial_sweep(pre, dt, true, true, i);
                    assert(is_line_outcome(radial_sweeps(pre, dt, true, true)(i), Ok(lines[i])));
                    law_uniform_line_is_fixed(
                        sweep,
                        Ok(lines[i]),
                        aligned(nothing, cells[i]),
                        nothing,
                    );
                    assert(lines[i].0[j] == sweep.line[j]);
                }
                assert(post.cells[j] =~= pre.cells[j]);
            }
            assert(post.cells =~= pre.cells);
        },
        Err(e) => {
            let i = lines.len() as int;
            let sweep = radial_sweep(pre, dt, true, true, i);
            assert(is_line_outcome(radial_sweeps(pre, dt, true, true)(i), Err(e)));
            law_uniform_line_is_fixed(sweep, Err(e), aligned(nothing, cells[i]), nothing);
        },
    }
}

/// A one-dimensional scheme and a two-dimensional one keep the same clock, find
/// the same states physical, and a source of nothing adds nothing.
pub open spec fn keeps_step<K: Scheme2d, L: crate::euler1d::Scheme1d<Real = K::Real>>(
    scheme: K,
    line_scheme: L,
    dt: K::Real,
    zero: K::Real,
    nothing: K::Real,
) -> bool {
    &&& call_ensures(L::zero, (&line_scheme,), zero)
    &&& forall|a: K::Real, b: K::Real, c: K::Real| #[trigger]
        call_ensures(K::plus, (&scheme, a, b), c) ==> call_ensures(L::plus, (&line_scheme, a, b), c)
    &&& forall|u: Conserved<K::Real>| #[trigger]
        call_ensures(K::is_physical, (&scheme, aligned(nothing, u)), true) ==> call_ensures(
            L::is_physical,
            (&line_scheme, u),
            true,
        )
    &&& forall|e: K::Real| #[trigger] call_ensures(L::heat, (&line_scheme, dt, e, zero), e)
    &&& forall|i: usize| #[trigger] has_centre(line_scheme, i)
}

/// A cell of a line has a position.
pub open spec fn has_centre<L: crate::euler1d::Scheme1d>(line_scheme: L, i: usize) -> bool {
    exists|x: L::Real| #[trigger] call_ensures(L::x_centre, (&line_scheme, i), x)
}

/// The planar limit. A step of a slab whose rings are all the image of one line of
/// cells, with open ends, is the image of a step of that line: every ring ends as
/// the image of what the one-dimensional step makes of the line, with the same
/// clock and the same count of steps. Both schemes admit the step.
pub proof fn law_planar_step_is_the_line_step<
    K: Scheme2d,
    L: crate::euler1d::Scheme1d<Real = K::Real>,
>(
    pre: Domain2d<K>,
    dt: K::Real,
    post: Domain2d<K>,
    line: crate::euler1d::Domain1d<L>,
    zero: K::Real,
    nothing: K::Real,
) -> (after: crate::euler1d::Domain1d<L>)
    requires
        pre.valid(),
        pre.geometry == Geometry::Planar,
        pre.bc_x_min == Boundary2d::Transmissive,
        pre.bc_x_max == Boundary2d::Transmissive,
        is_step_outcome(pre, dt, true, true, post, Ok(())),
        line.boundary == crate::euler1d::Boundary::Transmissive,
        (line.time, line.steps) == (pre.time, pre.steps),
        crate::euler1d::is_admitted(line, dt),
        has_equal_rings(pre, line.cells, nothing),
        has_flat_rings(pre),
        is_deterministic(pre.scheme),
        is_level(pre.scheme, nothing),
        twins(pre.scheme, line.scheme, dt, nothing),
        keeps_step::<K, L>(pre.scheme, line.scheme, dt, zero, nothing),
    ensures
        crate::euler1d::is_unforced_outcome(line, dt, after, Ok(())),
        has_equal_rings(post, after.cells, nothing),
        (after.time, after.steps) == (post.time, post.steps),
{
    let (half, a, b, c, d) = choose|
        half: K::Real,
        a: Domain2d<K>,
        b: Domain2d<K>,
        c: Domain2d<K>,
        d: Domain2d<K>,
    | #[trigger]
        is_split_step(pre, dt, true, true, half, a, b, c, d, post, Ok(()));
    lemma_level_sweep_is_idle(pre, half, a, Ok(()), line.cells, nothing);
    lemma_x_sweep_keeps_shape(a, dt, b);
    let (one, dx, lines, run) = choose|
        one: K::Real,
        dx: K::Real,
        lines: Seq<(Seq<Conserved2d<K::Real>>, K::Real)>,
        run: Seq<K::Real>,
    |
        {
            &&& #[trigger] call_ensures(K::one, (&a.scheme,), one)
            &&& #[trigger] call_ensures(K::dx, (&a.scheme,), dx)
            &&& #[trigger] are_swept(
                a.scheme,
                axial_sweeps(a, dt, one, dx),
                ring_weights(a),
                lines,
                run,
            )
            &&& is_sweep_end(
                a,
                axial_sweeps(a, dt, one, dx),
                a.cells.len() as int,
                with_rows(a.cells, lines),
                lines,
                run,
                b,
                Ok(()),
            )
        };
    let sweep = axial_sweep(a, dt, one, dx, 0);
    let metric = Metric { lower: one, upper: one, volume: dx };
    assert(is_line_outcome(axial_sweeps(a, dt, one, dx)(0), Ok(lines[0])));
    assert(pre.cells[0] == image_of(nothing, line.cells));
    assert(is_aligned_sweep(sweep, line.cells, metric, nothing));
    let (faces, fluxes, out) = law_sweep_is_the_line_update::<K, L>(
        sweep,
        lines[0].0,
        lines[0].1,
        line.scheme,
        line.cells,
        metric,
        nothing,
    );
    assert(b.cells[0] =~= image_of(nothing, out));
    assert forall|j: int| 0 <= j < b.cells.len() implies #[trigger] b.cells[j] == image_of(
        nothing,
        out,
    ) by {
        assert(a.cells[j] == image_of(nothing, line.cells));
        assert(a.cells[0] == image_of(nothing, line.cells));
        law_equal_rings_stay_equal(a, dt, b, j, 0);
    }
    lemma_level_sweep_is_idle(b, half, c, Ok(()), out, nothing);
    let after = crate::euler1d::Domain1d::<L> {
        cells: out,
        time: post.time,
        steps: line.steps + 1,
        ..line
    };
    let rates = crate::euler1d::constant_rate(zero);
    assert forall|i: int| 0 <= i < out.len() implies crate::euler1d::is_cell_update(
        line,
        dt,
        rates,
        fluxes,
        i,
        #[trigger] out[i],
    ) by {
        let u = out[i];
        assert(has_centre(line.scheme, i as usize));
        let x = choose|x: K::Real| #[trigger]
            call_ensures(L::x_centre, (&line.scheme, i as usize), x);
        assert(rates(i, x, zero));
        assert(call_ensures(L::heat, (&line.scheme, dt, u.energy, zero), u.energy));
        assert(crate::euler1d::is_warmed(line.scheme, dt, u, zero, u));
        assert(crate::euler1d::is_heated(line.scheme, dt, rates, i, u, u));
        assert(crate::euler1d::is_advanced(
            line.scheme,
            dt,
            line.cells[i],
            fluxes[i],
            fluxes[i + 1],
            u,
        ));
    }
    assert(crate::euler1d::is_flux_outcome(line, dt, faces, Ok(fluxes)));
    assert(d.time == pre.time);
    assert(call_ensures(K::plus, (&pre.scheme, pre.time, dt), post.time));
    assert(call_ensures(L::plus, (&line.scheme, line.time, dt), after.time));
    assert(crate::euler1d::is_update(line, dt, rates, faces, fluxes, after.cells));
    assert(crate::euler1d::all_physical(line.scheme, after.cells));
    assert(crate::euler1d::is_step(line, dt, rates, after));
    after
}

/// A one-dimensional scheme and a two-dimensional one count alike: their sums agree,
/// a state that the first finds physical the second does not find otherwise, and the
/// first's source of nothing adds nothing.
pub open spec fn counts_alike<K: Scheme2d, L: crate::euler1d::Scheme1d<Real = K::Real>>(
    scheme: K,
    line_scheme: L,
    dt: K::Real,
    nothing: K::Real,
) -> bool {
    &&& forall|a: K::Real, b: K::Real, x: K::Real, y: K::Real|
        #![trigger call_ensures(K::plus, (&scheme, a, b), x), call_ensures(L::plus, (&line_scheme, a, b), y)]
        call_ensures(K::plus, (&scheme, a, b), x) && call_ensures(L::plus, (&line_scheme, a, b), y)
            ==> x == y
    &&& forall|u: Conserved<K::Real>| #[trigger]
        call_ensures(L::is_physical, (&line_scheme, u), true) ==> !call_ensures(
            K::is_physical,
            (&scheme, aligned(nothing, u)),
            false,
        )
    &&& forall|zero: K::Real, e: K::Real, x: K::Real|
        #![trigger call_ensures(L::heat, (&line_scheme, dt, e, zero), x)]
        call_ensures(L::zero, (&line_scheme,), zero) && call_ensures(
            L::heat,
            (&line_scheme, dt, e, zero),
            x,
        ) ==> x == e
}

/// One ring, swept along the axis, follows the line.
proof fn lemma_ring_follows<K: Scheme2d, L: crate::euler1d::Scheme1d<Real = K::Real>>(
    sweep: Sweep<K>,
    r: Result<(Seq<Conserved2d<K::Real>>, K::Real), Euler2dError>,
    line: crate::euler1d::Domain1d<L>,
    zero: K::Real,
    faces: Seq<(Conserved<K::Real>, Conserved<K::Real>)>,
    fluxes: Seq<Conserved<K::Real>>,
    after: Seq<Conserved<K::Real>>,
    metric: Metric<K::Real>,
    nothing: K::Real,
)
    requires
        is_aligned_sweep(sweep, line.cells, metric, nothing),
        is_line_outcome(sweep, r),
        line.boundary == crate::euler1d::Boundary::Transmissive,
        call_ensures(L::zero, (&line.scheme,), zero),
        crate::euler1d::is_update(
            line,
            sweep.dt,
            crate::euler1d::constant_rate(zero),
            faces,
            fluxes,
            after,
        ),
        crate::euler1d::is_flux_outcome(line, sweep.dt, faces, Ok(fluxes)),
        crate::euler1d::all_physical(line.scheme, after),
        twins(sweep.scheme, line.scheme, sweep.dt, nothing),
        counts_alike::<K, L>(sweep.scheme, line.scheme, sweep.dt, nothing),
        crate::euler1d::is_deterministic(line.scheme, sweep.dt),
        crate::euler1d::weighs_reproducibly(line.scheme, sweep.dt),
    ensures
        r matches Ok((updated, _)) && updated == image_of(nothing, after),
{
    let (padded, f2) = choose|padded: Seq<Conserved2d<K::Real>>, faces: Seq<Faces<K::Real>>|
        #[trigger] sweep.is_outcome(padded, faces, r);
    let own = lemma_aligned_sweep_faces(
        sweep,
        padded,
        f2,
        line.scheme,
        line.cells,
        metric,
        nothing,
    );
    let ghosted = crate::euler1d::ghosted(line.cells, line.boundary);
    crate::euler1d::lemma_faces_and_fluxes_are_one(line.scheme, sweep.dt, ghosted, own, faces);
    let (left, right) = (left_faces(f2), right_faces(f2));
    assert forall|k: int| 0 <= k < left.len() implies !call_ensures(
        K::is_physical,
        (&sweep.scheme, #[trigger] left[k]),
        false,
    ) by {
        assert(f2[k].left == aligned(nothing, faces[k].0));
        assert(crate::euler1d::left_faces(faces)[k] == faces[k].0);
        assert(call_ensures(L::is_physical, (&line.scheme, faces[k].0), true));
    }
    assert forall|k: int| 0 <= k < right.len() implies !call_ensures(
        K::is_physical,
        (&sweep.scheme, #[trigger] right[k]),
        false,
    ) by {
        assert(f2[k].right == aligned(nothing, faces[k].1));
        assert(crate::euler1d::right_faces(faces)[k] == faces[k].1);
        assert(call_ensures(L::is_physical, (&line.scheme, faces[k].1), true));
    }
    assert forall|g2: Seq<Conserved2d<K::Real>>, updated: Seq<Conserved2d<K::Real>>|
        #![trigger sweep.is_update(f2, g2, updated)]
        sweep.are_fluxes(f2, g2) && sweep.is_update(f2, g2, updated) implies updated == image_of(
        nothing,
        after,
    ) by {
        let (f, out) = lemma_aligned_sweep_update(
            sweep,
            f2,
            g2,
            updated,
            line.scheme,
            line.cells,
            own,
            metric,
            nothing,
        );
        assert(crate::euler1d::are_fluxes(line.scheme, own, f));
        assert(crate::euler1d::are_fluxes(line.scheme, faces, fluxes));
        assert(f == fluxes);
        assert forall|i: int| 0 <= i < out.len() implies out[i] == after[i] by {
            let rates = crate::euler1d::constant_rate(zero);
            assert(crate::euler1d::is_cell_update(line, sweep.dt, rates, fluxes, i, after[i]));
            let u = choose|u: Conserved<K::Real>|
                {
                    &&& #[trigger] crate::euler1d::is_advanced(
                        line.scheme,
                        sweep.dt,
                        line.cells[i],
                        fluxes[i],
                        fluxes[i + 1],
                        u,
                    )
                    &&& crate::euler1d::is_heated(line.scheme, sweep.dt, rates, i, u, after[i])
                };
            assert(crate::euler1d::is_advanced(
                line.scheme,
                sweep.dt,
                line.cells[i],
                fluxes[i],
                fluxes[i + 1],
                out[i],
            ));
            crate::euler1d::lemma_advance_is_one(
                line.scheme,
                sweep.dt,
                line.cells[i],
                fluxes[i],
                fluxes[i + 1],
                u,
                out[i],
            );
            assert(crate::euler1d::is_warmed(line.scheme, sweep.dt, u, zero, after[i]));
        }
        assert(out =~= after);
    }
    match r {
        Ok((updated, escaped)) => {
            let g2 = choose|fluxes: Seq<Conserved2d<K::Real>>|
                {
                    &&& #[trigger] sweep.are_fluxes(f2, fluxes)
                    &&& sweep.is_update(f2, fluxes, updated)
                    &&& sweep.is_escaped(fluxes, escaped)
                };
            assert(updated == image_of(nothing, after));
        },
        Err(e) => {
            assert(forall|k: int| !#[trigger] first_bad(sweep.scheme, left, k));
            assert(forall|k: int| !#[trigger] first_bad(sweep.scheme, right, k));
            let (g2, updated, k) = choose|
                fluxes: Seq<Conserved2d<K::Real>>,
                updated: Seq<Conserved2d<K::Real>>,
                k: int,
            |
                {
                    &&& #[trigger] sweep.are_fluxes(f2, fluxes)
                    &&& sweep.is_update(f2, fluxes, updated)
                    &&& #[trigger] first_bad(sweep.scheme, updated, k)
                    &&& sweep.names_cell(e, Stage2d::ConservativeUpdate(sweep.dir), k)
                };
            assert(updated == image_of(nothing, after));
            assert(updated[k] == aligned(nothing, after[k]));
            assert(call_ensures(L::is_physical, (&line.scheme, after[k]), true));
        },
    }
}

/// The axial sweep of equal rings follows the line.
proof fn lemma_rings_follow<K: Scheme2d, L: crate::euler1d::Scheme1d<Real = K::Real>>(
    pre: Domain2d<K>,
    dt: K::Real,
    post: Domain2d<K>,
    r: Result<(), Euler2dError>,
    line: crate::euler1d::Domain1d<L>,
    zero: K::Real,
    faces: Seq<(Conserved<K::Real>, Conserved<K::Real>)>,
    fluxes: Seq<Conserved<K::Real>>,
    after: Seq<Conserved<K::Real>>,
    nothing: K::Real,
)
    requires
        pre.valid(),
        pre.bc_x_min == Boundary2d::Transmissive,
        pre.bc_x_max == Boundary2d::Transmissive,
        is_x_sweep(pre, dt, post, r),
        has_equal_rings(pre, line.cells, nothing),
        line.boundary == crate::euler1d::Boundary::Transmissive,
        call_ensures(L::zero, (&line.scheme,), zero),
        crate::euler1d::is_update(
            line,
            dt,
            crate::euler1d::constant_rate(zero),
            faces,
            fluxes,
            after,
        ),
        crate::euler1d::is_flux_outcome(line, dt, faces, Ok(fluxes)),
        crate::euler1d::all_physical(line.scheme, after),
        twins(pre.scheme, line.scheme, dt, nothing),
        counts_alike::<K, L>(pre.scheme, line.scheme, dt, nothing),
        crate::euler1d::is_deterministic(line.scheme, dt),
        crate::euler1d::weighs_reproducibly(line.scheme, dt),
    ensures
        r is Ok,
        post == (Domain2d { cells: post.cells, escaped: post.escaped, ..pre }),
        post.cells.len() == pre.cells.len(),
        has_equal_rings(post, after, nothing),
{
    let (one, dx, lines, run) = choose|
        one: K::Real,
        dx: K::Real,
        lines: Seq<(Seq<Conserved2d<K::Real>>, K::Real)>,
        run: Seq<K::Real>,
    |
        {
            &&& #[trigger] call_ensures(K::one, (&pre.scheme,), one)
            &&& #[trigger] call_ensures(K::dx, (&pre.scheme,), dx)
            &&& #[trigger] are_swept(
                pre.scheme,
                axial_sweeps(pre, dt, one, dx),
                ring_weights(pre),
                lines,
                run,
            )
            &&& is_sweep_end(
                pre,
                axial_sweeps(pre, dt, one, dx),
                pre.cells.len() as int,
                with_rows(pre.cells, lines),
                lines,
                run,
                post,
                r,
            )
        };
    let metric = Metric { lower: one, upper: one, volume: dx };
    let sweeps = axial_sweeps(pre, dt, one, dx);
    assert forall|j: int| 0 <= j < pre.cells.len() implies is_aligned_sweep(
        #[trigger] axial_sweep(pre, dt, one, dx, j),
        line.cells,
        metric,
        nothing,
    ) by {
        assert(pre.cells[j] == image_of(nothing, line.cells));
    }
    assert forall|j: int| 0 <= j < lines.len() implies (#[trigger] lines[j]).0 == image_of(
        nothing,
        after,
    ) by {
        assert(is_line_outcome(sweeps(j), Ok(lines[j])));
        lemma_ring_follows(
            axial_sweep(pre, dt, one, dx, j),
            Ok(lines[j]),
            line,
            zero,
            faces,
            fluxes,
            after,
            metric,
            nothing,
        );
    }
    if r is Err {
        let j = lines.len() as int;
        let e = r->Err_0;
        assert(is_line_outcome(sweeps(j), Err(e)));
        lemma_ring_follows(
            axial_sweep(pre, dt, one, dx, j),
            Err(e),
            line,
            zero,
            faces,
            fluxes,
            after,
            metric,
            nothing,
        );
    }
    assert forall|j: int| 0 <= j < post.cells.len() implies #[trigger] post.cells[j] == image_of(
        nothing,
        after,
    ) by {
        assert(lines[j].0 == image_of(nothing, after));
    }
}

/// The planar limit, from the line to the slab. Where the step of a line with open
/// ends succeeds, so does the step of a slab whose rings are all the image of that
/// line, if the slab admits its length: every ring ends as the image of the line, and
/// the clock and the count of steps advance alike.
pub proof fn law_slab_follows_the_line<K: Scheme2d, L: crate::euler1d::Scheme1d<Real = K::Real>>(
    pre: Domain2d<K>,
    dt: K::Real,
    post: Domain2d<K>,
    r: Result<(), Euler2dError>,
    line: crate::euler1d::Domain1d<L>,
    after: crate::euler1d::Domain1d<L>,
    nothing: K::Real,
)
    requires
        pre.valid(),
        pre.geometry == Geometry::Planar,
        pre.bc_x_min == Boundary2d::Transmissive,
        pre.bc_x_max == Boundary2d::Transmissive,
        is_step_outcome(pre, dt, true, true, post, r),
        forall|e: Euler2dError| !#[trigger] is_rejected(pre, dt, e),
        line.boundary == crate::euler1d::Boundary::Transmissive,
        (line.time, line.steps) == (pre.time, pre.steps),
        crate::euler1d::is_unforced_outcome(line, dt, after, Ok(())),
        crate::euler1d::all_physical(line.scheme, line.cells),
        has_equal_rings(pre, line.cells, nothing),
        has_flat_rings(pre),
        is_deterministic(pre.scheme),
        is_level(pre.scheme, nothing),
        twins(pre.scheme, line.scheme, dt, nothing),
        counts_alike::<K, L>(pre.scheme, line.scheme, dt, nothing),
        crate::euler1d::is_deterministic(line.scheme, dt),
        crate::euler1d::weighs_reproducibly(line.scheme, dt),
    ensures
        r is Ok,
        has_equal_rings(post, after.cells, nothing),
        post.cells.len() == pre.cells.len(),
        (post.time, post.steps) == (after.time, after.steps),
        post == (Domain2d {
            cells: post.cells,
            escaped: post.escaped,
            time: post.time,
            steps: post.steps,
            ..pre
        }),
{
    let zero = choose|zero: K::Real|
        #[trigger] call_ensures(L::zero, (&line.scheme,), zero) && crate::euler1d::is_step_outcome(
            line,
            dt,
            crate::euler1d::constant_rate(zero),
            after,
            Ok(()),
        );
    let (faces, fluxes) = choose|
        faces: Seq<(Conserved<K::Real>, Conserved<K::Real>)>,
        fluxes: Seq<Conserved<K::Real>>,
    |
        {
            &&& #[trigger] crate::euler1d::is_update(
                line,
                dt,
                crate::euler1d::constant_rate(zero),
                faces,
                fluxes,
                after.cells,
            )
            &&& crate::euler1d::is_flux_outcome(line, dt, faces, Ok(fluxes))
        };
    let (half, a, b, c, d) = choose|
        half: K::Real,
        a: Domain2d<K>,
        b: Domain2d<K>,
        c: Domain2d<K>,
        d: Domain2d<K>,
    | #[trigger]
        is_split_step(pre, dt, true, true, half, a, b, c, d, post, r);
    assert forall|i: int| 0 <= i < line.cells.len() implies !call_ensures(
        K::is_physical,
        (&pre.scheme, aligned(nothing, #[trigger] line.cells[i])),
        false,
    ) by {
        assert(call_ensures(L::is_physical, (&line.scheme, line.cells[i]), true));
    }
    assert forall|i: int| 0 <= i < after.cells.len() implies !call_ensures(
        K::is_physical,
        (&pre.scheme, aligned(nothing, #[trigger] after.cells[i])),
        false,
    ) by {
        assert(call_ensures(L::is_physical, (&line.scheme, after.cells[i]), true));
    }
    let first = is_r_sweep(pre, half, true, true, a, Ok(()));
    if r is Err && is_r_sweep(pre, half, true, true, a, r) && post == a {
        lemma_level_sweep_is_idle(pre, half, a, r, line.cells, nothing);
    }
    assert(first);
    lemma_level_sweep_is_idle(pre, half, a, Ok(()), line.cells, nothing);
    if r is Err && is_x_sweep(a, dt, b, r) && post == b {
        lemma_rings_follow(
            a,
            dt,
            b,
            r,
            line,
            zero,
            faces,
            fluxes,
            after.cells,
            nothing,
        );
    }
    assert(is_x_sweep(a, dt, b, Ok(())));
    lemma_rings_follow(
        a,
        dt,
        b,
        Ok(()),
        line,
        zero,
        faces,
        fluxes,
        after.cells,
        nothing,
    );
    lemma_x_sweep_keeps_shape(a, dt, b);
    if r is Err {
        lemma_level_sweep_is_idle(b, half, c, r, after.cells, nothing);
    }
    lemma_level_sweep_is_idle(b, half, c, Ok(()), after.cells, nothing);
    assert(call_ensures(K::plus, (&pre.scheme, pre.time, dt), post.time));
    assert(call_ensures(L::plus, (&line.scheme, line.time, dt), after.time));
}

} // verus!

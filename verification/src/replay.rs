//! A run is a function of what goes into it.
//!
//! Where every operation of the arithmetic is a function of its arguments, and so is
//! what a medium answers, a beam that is sent twice arrives twice the same: sample
//! for sample, with the same power launched and the same power absorbed. So are the
//! members of an ensemble, whatever their number and the order in which they run.
use crate::cases::{
    are_fractions, has_arrived, is_arrival, is_ensemble_member, is_fresh, is_launch, is_mean,
    is_member, is_path_walked, is_realization, is_same_realization, is_total_run, is_traversal,
    is_turbulence_run, lemma_equal_members_give_equal_runs, middle_end, middle_start,
    realizes_alike, spec_substeps, Arrival, Beam, Passage, Path, PathCase, PathWalk, Realization,
    TurbulenceCase, TurbulenceParams, TurbulenceRun,
};
use crate::field::{is_power, Field};
use crate::grid::Grid;
use crate::medium::Medium;
use crate::optics::Optics;
use crate::plane::Plane;
use crate::propagate::{
    is_edge, is_index, is_intensity, is_passed, is_run, is_slab, is_slab_answer, is_staged, is_step,
    is_step_at, March,
};
use crate::transparency::{
    counts_reproducibly, diffracts_reproducibly, lemma_diffraction_is_one, lemma_edge_is_one,
    lemma_power_is_one, lemma_same_samples,
};
use vstd::prelude::*;

verus! {

/// A launch and a report are functions of their arguments.
#[verifier::opaque]
pub open spec fn launches_reproducibly<K: Optics>(k: K) -> bool {
    &&& forall|w: K::Real, x: isize, y: isize, a: K::Complex, b: K::Complex| #[trigger]
        call_ensures(K::gaussian, (&k, w, x, y), a) && #[trigger] call_ensures(
            K::gaussian,
            (&k, w, x, y),
            b,
        ) ==> a == b
    &&& forall|i: usize, a: K::Real, b: K::Real| #[trigger]
        call_ensures(K::edge, (&k, i), a) && #[trigger] call_ensures(K::edge, (&k, i), b) ==> a == b
    &&& forall|x: K::Real, y: K::Real, a: K::Real, b: K::Real| #[trigger]
        call_ensures(K::times, (&k, x, y), a) && #[trigger] call_ensures(K::times, (&k, x, y), b)
            ==> a == b
    &&& forall|x: K::Real, y: K::Real, a: K::Real, b: K::Real| #[trigger]
        call_ensures(K::ratio, (&k, x, y), a) && #[trigger] call_ensures(K::ratio, (&k, x, y), b)
            ==> a == b
}

/// The whole arithmetic of a beam is a function of its arguments.
pub open spec fn is_reproducible<K: Optics>(k: K) -> bool {
    &&& counts_reproducibly(k)
    &&& diffracts_reproducibly(k)
    &&& launches_reproducibly(k)
}

/// Two media answer alike: asked the same, they give the same samples.
#[verifier::opaque]
pub open spec fn answers_alike<K: Optics, M: Medium<K>>(k: K, m: M, n: M) -> bool {
    &&& forall|a: bool, b: bool| #[trigger]
        call_ensures(<M as Medium<K>>::needs_intensity, (&m, &k), a) && #[trigger] call_ensures(
            <M as Medium<K>>::needs_intensity,
            (&n, &k),
            b,
        ) ==> a == b
    &&& forall|z: usize, a: Plane<K::Real>, b: Plane<K::Real>| #[trigger]
        call_ensures(<M as Medium<K>>::index_perturbation, (&m, &k, z), a)
            && #[trigger] call_ensures(<M as Medium<K>>::index_perturbation, (&n, &k, z), b) ==> a@
            == b@
    &&& forall|
        z: usize,
        p: Plane<K::Real>,
        q: Plane<K::Real>,
        dz: K::Real,
        a: Plane<K::Real>,
        b: Plane<K::Real>,
    | #[trigger]
        call_ensures(<M as Medium<K>>::index_response, (&m, &k, z, &p, dz), Ok(a))
            && #[trigger] call_ensures(
            <M as Medium<K>>::index_response,
            (&n, &k, z, &q, dz),
            Ok(b),
        ) && p@ == q@ ==> a@ == b@
    &&& forall|z: usize, a: Option<Plane<K::Real>>, b: Option<Plane<K::Real>>| #[trigger]
        call_ensures(<M as Medium<K>>::extinction, (&m, &k, z), a) && #[trigger] call_ensures(
            <M as Medium<K>>::extinction,
            (&n, &k, z),
            b,
        ) ==> match (a, b) {
            (Some(x), Some(y)) => x@ == y@,
            (None, None) => true,
            _ => false,
        }
}

proof fn lemma_intensity_is_one<K: Optics>(
    k: K,
    n: int,
    u: Plane<K::Complex>,
    w: Plane<K::Complex>,
    p: Plane<K::Real>,
    q: Plane<K::Real>,
)
    requires
        counts_reproducibly(k),
        u@ == w@,
        is_intensity(k, n, u, p),
        is_intensity(k, n, w, q),
    ensures
        p@ == q@,
{
    assert forall|j: int, i: int| 0 <= j < n && 0 <= i < n implies #[trigger] p@[j][i]
        == q@[j][i] by {
        assert(call_ensures(K::intensity, (&k, u@[j][i]), p@[j][i]));
        assert(call_ensures(K::intensity, (&k, w@[j][i]), q@[j][i]));
        reveal(counts_reproducibly);
    }
    lemma_same_samples(p, q, n);
}

proof fn lemma_slab_is_one<K: Optics, M: Medium<K>>(
    k: K,
    n: nat,
    m: M,
    l: M,
    z: usize,
    dz: K::Real,
    u: Plane<K::Complex>,
    w: Plane<K::Complex>,
    a: Plane<K::Complex>,
    b: Plane<K::Complex>,
)
    requires
        counts_reproducibly(k),
        answers_alike(k, m, l),
        u@ == w@,
        is_slab(k, n, m, z, dz, u, Ok(a)),
        is_slab(k, n, l, z, dz, w, Ok(b)),
    ensures
        a@ == b@,
{
    let (needs, index, loss) = choose|
        needs: bool,
        index: Result<Plane<K::Real>, M::Refusal>,
        loss: Option<Plane<K::Real>>,
    |
        {
            &&& call_ensures(<M as Medium<K>>::needs_intensity, (&m, &k), needs)
            &&& #[trigger] is_index(k, n as int, m, z, dz, u, needs, index)
            &&& #[trigger] is_slab_answer(k, n, m, z, dz, u, needs, index, loss, Ok(a))
        };
    let (asks, other, decay) = choose|
        needs: bool,
        index: Result<Plane<K::Real>, M::Refusal>,
        loss: Option<Plane<K::Real>>,
    |
        {
            &&& call_ensures(<M as Medium<K>>::needs_intensity, (&l, &k), needs)
            &&& #[trigger] is_index(k, n as int, l, z, dz, w, needs, index)
            &&& #[trigger] is_slab_answer(k, n, l, z, dz, w, needs, index, loss, Ok(b))
        };
    assert(needs == asks) by {
        reveal(answers_alike);
    }
    let (dn, dm) = (index->Ok_0, other->Ok_0);
    assert(dn@ == dm@) by {
        reveal(answers_alike);
        if needs {
            let p = choose|p: Plane<K::Real>| #[trigger]
                is_intensity(k, n as int, u, p) && call_ensures(
                    <M as Medium<K>>::index_response,
                    (&m, &k, z, &p, dz),
                    index,
                );
            let q = choose|p: Plane<K::Real>| #[trigger]
                is_intensity(k, n as int, w, p) && call_ensures(
                    <M as Medium<K>>::index_response,
                    (&l, &k, z, &p, dz),
                    other,
                );
            lemma_intensity_is_one(k, n as int, u, w, p, q);
        }
    }
    assert(is_passed(k, n as int, dn, loss, dz, u, a));
    assert(is_passed(k, n as int, dm, decay, dz, w, b));
    assert(match (loss, decay) {
        (Some(x), Some(y)) => x@ == y@,
        (None, None) => true,
        _ => false,
    }) by {
        reveal(answers_alike);
    }
    assert forall|j: int, i: int| 0 <= j < n && 0 <= i < n implies #[trigger] a@[j][i]
        == b@[j][i] by {
        assert(b@[j][i] == b@[j][i]);
        reveal(counts_reproducibly);
    }
    lemma_same_samples(a, b, n as int);
}

/// Two propagators stand alike, but for the kernels that they keep.
pub open spec fn stands_alike<K: Optics>(a: March<K>, b: March<K>) -> bool {
    b == (March { cached: b.cached, ..a })
}

proof fn lemma_step_is_one<K: Optics, M: Medium<K>>(
    pre: March<K>,
    fore: March<K>,
    m: M,
    l: M,
    z: usize,
    dz: K::Real,
    u: Plane<K::Complex>,
    w: Plane<K::Complex>,
    post: March<K>,
    after: March<K>,
    v: Plane<K::Complex>,
    x: Plane<K::Complex>,
)
    requires
        counts_reproducibly(pre.optics),
        diffracts_reproducibly(pre.optics),
        answers_alike(pre.optics, m, l),
        stands_alike(pre, fore),
        u@ == w@,
        is_step(pre, m, z, dz, u, post, v, Ok(())),
        is_step(fore, l, z, dz, w, after, x, Ok(())),
    ensures
        stands_alike(post, after),
        post.optics == pre.optics,
        v@ == x@,
{
    let k = pre.optics;
    let n = pre.n as int;
    let (half, mid, a, b, late, c) = choose|
        half: K::Real,
        mid: March<K>,
        a: Plane<K::Complex>,
        b: Plane<K::Complex>,
        late: March<K>,
        c: Plane<K::Complex>,
    | #[trigger]
        is_staged(pre, m, z, dz, u, half, mid, a, b, late, c, post, v, Ok(()));
    let (half2, mid2, a2, b2, late2, c2) = choose|
        half: K::Real,
        mid: March<K>,
        a: Plane<K::Complex>,
        b: Plane<K::Complex>,
        late: March<K>,
        c: Plane<K::Complex>,
    | #[trigger]
        is_staged(fore, l, z, dz, w, half, mid, a, b, late, c, after, x, Ok(()));
    assert(half == half2) by {
        reveal(counts_reproducibly);
    }
    lemma_diffraction_is_one(k, n, half, u, w, mid.cached->0, mid2.cached->0, a, a2);
    lemma_slab_is_one(k, pre.n, m, l, z, dz, a, a2, b, b2);
    lemma_diffraction_is_one(k, n, half, b, b2, late.cached->0, late2.cached->0, c, c2);
    lemma_edge_is_one(late, late2, c, c2, post, after, v, x);
}

/// A run is a function of what goes in: two runs of propagators that stand alike,
/// with equal samples, through media that answer alike, pass through equal samples
/// and book equal powers, step by step.
pub proof fn law_run_is_reproducible<K: Optics, M: Medium<K>>(
    pre: March<K>,
    fore: March<K>,
    m: M,
    l: M,
    dz: K::Real,
    first_slab: usize,
    u: Plane<K::Complex>,
    w: Plane<K::Complex>,
    trace: Seq<(March<K>, Plane<K::Complex>)>,
    other: Seq<(March<K>, Plane<K::Complex>)>,
    i: int,
)
    requires
        counts_reproducibly(pre.optics),
        diffracts_reproducibly(pre.optics),
        answers_alike(pre.optics, m, l),
        stands_alike(pre, fore),
        u@ == w@,
        is_run(pre, m, dz, first_slab, u, trace),
        is_run(fore, l, dz, first_slab, w, other),
        trace.len() == other.len(),
        0 <= i < trace.len(),
    ensures
        stands_alike(trace[i].0, other[i].0),
        trace[i].0.optics == pre.optics,
        trace[i].0.absorbed == other[i].0.absorbed,
        trace[i].1@ == other[i].1@,
    decreases i,
{
    if i > 0 {
        let j = i - 1;
        law_run_is_reproducible(pre, fore, m, l, dz, first_slab, u, w, trace, other, j);
        assert(is_step_at(m, dz, first_slab, trace, j));
        assert(is_step_at(l, dz, first_slab, other, j));
        lemma_step_is_one(
            trace[j].0,
            other[j].0,
            m,
            l,
            (first_slab + j) as usize,
            dz,
            trace[j].1,
            other[j].1,
            trace[i].0,
            other[i].0,
            trace[i].1,
            other[i].1,
        );
    }
}

pub(crate) proof fn lemma_launch_is_one<K: Optics>(
    k: K,
    grid: Grid<K::Real>,
    wavelength: K::Real,
    w0: K::Real,
    f: Field<K::Real, K::Complex>,
    g: Field<K::Real, K::Complex>,
)
    requires
        launches_reproducibly(k),
        is_launch(k, grid, wavelength, w0, f),
        is_launch(k, grid, wavelength, w0, g),
    ensures
        f.u@ == g.u@,
{
    let n = grid.n as int;
    assert forall|j: int, i: int| 0 <= j < n && 0 <= i < n implies #[trigger] f.u@[j][i]
        == g.u@[j][i] by {
        assert(g.u@[j][i] == g.u@[j][i]);
        reveal(launches_reproducibly);
    }
    lemma_same_samples(f.u, g.u, n);
}

proof fn lemma_start_is_one<K: Optics>(
    k: K,
    grid: Grid<K::Real>,
    wavelength: K::Real,
    w0: K::Real,
    f: Field<K::Real, K::Complex>,
    g: Field<K::Real, K::Complex>,
    pre: March<K>,
    fore: March<K>,
)
    requires
        is_reproducible(k),
        is_launch(k, grid, wavelength, w0, f),
        is_launch(k, grid, wavelength, w0, g),
        is_fresh(k, grid.n as int, pre),
        is_fresh(k, grid.n as int, fore),
    ensures
        f.u@ == g.u@,
        stands_alike(pre, fore),
{
    let n = grid.n as int;
    lemma_launch_is_one(k, grid, wavelength, w0, f, g);
    let p = choose|profile: Seq<K::Real>| #[trigger] is_edge(k, n, profile, pre.edge);
    let q = choose|profile: Seq<K::Real>| #[trigger] is_edge(k, n, profile, fore.edge);
    assert(pre.edge == fore.edge && pre.absorbed == fore.absorbed) by {
        reveal(launches_reproducibly);
        reveal(counts_reproducibly);
        assert(p =~= q);
        assert forall|j: int| 0 <= j < n implies pre.edge[j] == fore.edge[j] by {
            assert(pre.edge[j].len() == n && fore.edge[j].len() == n);
            assert forall|i: int| 0 <= i < n implies pre.edge[j][i] == fore.edge[j][i] by {
                assert(call_ensures(K::times, (&k, p[i], p[j]), pre.edge[j][i]));
                assert(call_ensures(K::times, (&k, q[i], q[j]), fore.edge[j][i]));
            }
            assert(pre.edge[j] =~= fore.edge[j]);
        }
        assert(pre.edge =~= fore.edge);
    }
}

/// What arrives is a function of the beam and of what the medium answers.
pub proof fn law_arrival_is_reproducible<K: Optics, M: Medium<K>>(
    k: K,
    beam: Beam<K::Real>,
    m: M,
    l: M,
    dz: K::Real,
    steps: usize,
    a: Arrival<K::Real, K::Complex>,
    b: Arrival<K::Real, K::Complex>,
)
    requires
        is_reproducible(k),
        answers_alike(k, m, l),
        has_arrived(k, beam, m, dz, steps, a),
        has_arrived(k, beam, l, dz, steps, b),
    ensures
        a.field.u@ == b.field.u@,
        (a.field.grid, a.field.wavelength) == (b.field.grid, b.field.wavelength),
        a.p_in == b.p_in,
        a.absorbed == b.absorbed,
{
    let x = choose|way: Passage<K>| #[trigger] is_arrival(k, beam, m, dz, steps, way, a);
    let y = choose|way: Passage<K>| #[trigger] is_arrival(k, beam, l, dz, steps, way, b);
    lemma_start_is_one(
        k,
        beam.grid,
        beam.wavelength,
        beam.w0,
        x.launch,
        y.launch,
        x.pre,
        y.pre,
    );
    let s = choose|trace: Seq<(March<K>, Plane<K::Complex>)>| #[trigger]
        is_traversal(x.pre, x.launch, m, dz, steps, trace, x.post, x.u);
    let t = choose|trace: Seq<(March<K>, Plane<K::Complex>)>| #[trigger]
        is_traversal(y.pre, y.launch, l, dz, steps, trace, y.post, y.u);
    law_run_is_reproducible(
        x.pre,
        y.pre,
        m,
        l,
        dz,
        0,
        x.launch.u,
        y.launch.u,
        s,
        t,
        s.len() - 1,
    );
    lemma_power_is_one(k, x.launch.u@, beam.grid.n as nat, a.p_in, b.p_in);
}

/// Two paths are alike: as long, with slabs as thick, and they answer alike.
pub open spec fn are_alike_paths<K: Optics, P: Path<K>>(k: K, a: P, b: P) -> bool {
    &&& answers_alike(k, a, b)
    &&& forall|x: K::Real, y: K::Real|
        #![trigger call_ensures(<P as Path<K>>::dz, (&a, &k), x), call_ensures(<P as Path<K>>::dz, (&b, &k), y)]
        call_ensures(<P as Path<K>>::dz, (&a, &k), x) && call_ensures(
            <P as Path<K>>::dz,
            (&b, &k),
            y,
        ) ==> x == y
    &&& forall|x: usize, y: usize|
        #![trigger call_ensures(<P as Path<K>>::n_slabs, (&a, &k), x), call_ensures(<P as Path<K>>::n_slabs, (&b, &k), y)]
        call_ensures(<P as Path<K>>::n_slabs, (&a, &k), x) && call_ensures(
            <P as Path<K>>::n_slabs,
            (&b, &k),
            y,
        ) ==> x == y
}

pub(crate) proof fn lemma_realization_is_one<K: Optics, P: Path<K>>(
    k: K,
    p: TurbulenceParams<K::Real>,
    path: P,
    twin: P,
    a: Realization<K::Real>,
    b: Realization<K::Real>,
)
    requires
        is_reproducible(k),
        are_alike_paths(k, path, twin),
        is_realization(k, p, path, Ok(a)),
        is_realization(k, p, twin, Ok(b)),
    ensures
        is_same_realization(a, b),
{
    let n = p.n as int;
    let (dz, slabs, x) = choose|dz: K::Real, slabs: usize, walk: PathWalk<K>| #[trigger]
        is_path_walked(k, p, path, dz, slabs, walk) && is_member(k, p.n as int, walk, a);
    let (dy, spans, y) = choose|dz: K::Real, slabs: usize, walk: PathWalk<K>| #[trigger]
        is_path_walked(k, p, twin, dz, slabs, walk) && is_member(k, p.n as int, walk, b);
    assert(dz == dy && slabs == spans);
    let grid = Grid { n: p.n, dx: p.dx };
    lemma_start_is_one(k, grid, p.wavelength, p.w0, x.launch, y.launch, x.pre, y.pre);
    let (s, t) = (x.trace, y.trace);
    assert forall|i: int| 0 <= i < s.len() implies (#[trigger] s[i]).1@ == t[i].1@ && s[i].0.absorbed
        == t[i].0.absorbed by {
        law_run_is_reproducible(
            x.pre,
            y.pre,
            path,
            twin,
            dz,
            0,
            x.launch.u,
            y.launch.u,
            s,
            t,
            i,
        );
    }
    let last = s.len() - 1;
    assert(s[last].1@ == t[last].1@);
    lemma_intensity_is_one(k, n, x.u, y.u, a.frame, b.frame);
    assert(a.side@ == b.side@) by {
        reveal(counts_reproducibly);
        let rows = middle_end(n) - middle_start(n);
        assert forall|r: int| 0 <= r < a.side@.len() implies a.side@[r] == b.side@[r] by {
            assert(a.side@[r].len() == s.len() && b.side@[r].len() == t.len());
            assert forall|c: int| 0 <= c < s.len() implies a.side@[r][c] == b.side@[r][c] by {
                assert(s[c].1@ == t[c].1@);
                assert(call_ensures(
                    K::intensity,
                    (&k, s[c].1@[n / 2][middle_start(n) + r]),
                    a.side@[r][c],
                ));
                assert(call_ensures(
                    K::intensity,
                    (&k, t[c].1@[n / 2][middle_start(n) + r]),
                    b.side@[r][c],
                ));
            }
            assert(a.side@[r] =~= b.side@[r]);
        }
        assert(a.side@ =~= b.side@);
    }
    let e = choose|e: K::Real| #[trigger]
        are_fractions(k, n as nat, x.launch.u, x.u, x.post.absorbed, e, a.guard_frac);
    let f = choose|e: K::Real| #[trigger]
        are_fractions(k, n as nat, y.launch.u, y.u, y.post.absorbed, e, b.guard_frac);
    let p0 = choose|p0: K::Real|
        #[trigger] is_power(k, x.launch.u@, n as nat, p0) && call_ensures(
            K::ratio,
            (&k, x.post.absorbed, p0),
            a.guard_frac,
        );
    let q0 = choose|p0: K::Real|
        #[trigger] is_power(k, y.launch.u@, n as nat, p0) && call_ensures(
            K::ratio,
            (&k, y.post.absorbed, p0),
            b.guard_frac,
        );
    lemma_power_is_one(k, x.launch.u@, n as nat, p0, q0);
    reveal(launches_reproducibly);
}

proof fn lemma_totals_are_one<K: Optics>(
    k: K,
    values: Seq<K::Real>,
    run: Seq<K::Real>,
    other: Seq<K::Real>,
    i: int,
)
    requires
        counts_reproducibly(k),
        is_total_run(k, values, run),
        is_total_run(k, values, other),
        0 <= i <= values.len(),
    ensures
        run[i] == other[i],
    decreases i,
{
    reveal(counts_reproducibly);
    if i > 0 {
        lemma_totals_are_one(k, values, run, other, i - 1);
        assert(call_ensures(K::plus, (&k, run[i - 1], values[i - 1]), run[i - 1 + 1]));
        assert(call_ensures(K::plus, (&k, other[i - 1], values[i - 1]), other[i - 1 + 1]));
    }
}

/// The number of members is a function of the number.
pub open spec fn numbers_reproducibly<K: PathCase>(k: K) -> bool {
    forall|n: usize, a: K::Real, b: K::Real| #[trigger]
        call_ensures(K::members, (&k, n), a) && #[trigger] call_ensures(K::members, (&k, n), b) ==> a
            == b
}

pub(crate) proof fn lemma_mean_is_one<K: PathCase>(k: K, values: Seq<K::Real>, a: K::Real, b: K::Real)
    requires
        is_reproducible(k),
        numbers_reproducibly(k),
        is_mean(k, values, a),
        is_mean(k, values, b),
    ensures
        a == b,
{
    let (m, run) = choose|count: K::Real, run: Seq<K::Real>|
        {
            &&& #[trigger] call_ensures(K::members, (&k, values.len() as usize), count)
            &&& #[trigger] is_total_run(k, values, run)
            &&& call_ensures(K::ratio, (&k, run.last(), count), a)
        };
    let (n, other) = choose|count: K::Real, run: Seq<K::Real>|
        {
            &&& #[trigger] call_ensures(K::members, (&k, values.len() as usize), count)
            &&& #[trigger] is_total_run(k, values, run)
            &&& call_ensures(K::ratio, (&k, run.last(), count), b)
        };
    lemma_totals_are_one(k, values, run, other, values.len() as int);
    reveal(launches_reproducibly);
}

/// Equal parameters, the seed among them, give equal runs: the same numbers in every
/// member, in the long exposure and in what the edge absorbed. Asked of the
/// operations alone: that each is a function of its arguments, and that the path of a
/// member is.
pub proof fn law_equal_parameters_give_equal_runs<K: TurbulenceCase>(
    k: K,
    p: TurbulenceParams<K::Real>,
    a: TurbulenceRun<K::Real>,
    b: TurbulenceRun<K::Real>,
)
    requires
        is_turbulence_run(k, p, Ok(a)),
        is_turbulence_run(k, p, Ok(b)),
        is_reproducible(k),
        numbers_reproducibly(k),
        forall|substeps: usize, i: u64, x: K::Path, y: K::Path| #[trigger]
            call_ensures(K::path, (&k, p, substeps, i), x) && #[trigger] call_ensures(
                K::path,
                (&k, p, substeps, i),
                y,
            ) ==> are_alike_paths(k, x, y),
    ensures
        a.grid == b.grid,
        a.substeps == b.substeps,
        a.frames@.len() == b.frames@.len() == p.realizations,
        a.xz_frames@.len() == b.xz_frames@.len() == p.realizations,
        forall|m: int|
            0 <= m < p.realizations ==> (#[trigger] a.frames@[m])@ == b.frames@[m]@,
        forall|m: int|
            0 <= m < p.realizations ==> (#[trigger] a.xz_frames@[m])@ == b.xz_frames@[m]@,
        a.longexp@ == b.longexp@,
        a.guard_frac_mean == b.guard_frac_mean,
{
    assert(realizes_alike(k, p)) by {
        assert forall|i: u64, x: Realization<K::Real>, y: Realization<K::Real>|
            #![trigger is_ensemble_member(k, p, i, Ok(x)), is_ensemble_member(k, p, i, Ok(y))]
            is_ensemble_member(k, p, i, Ok(x)) && is_ensemble_member(k, p, i, Ok(y))
            implies is_same_realization(x, y) by {
            let substeps = spec_substeps(p.screens as int) as usize;
            let path = choose|path: K::Path| #[trigger]
                call_ensures(K::path, (&k, p, substeps, i), path) && is_realization(
                    k,
                    p,
                    path,
                    Ok(x),
                );
            let twin = choose|path: K::Path| #[trigger]
                call_ensures(K::path, (&k, p, substeps, i), path) && is_realization(
                    k,
                    p,
                    path,
                    Ok(y),
                );
            lemma_realization_is_one(k, p, path, twin, x, y);
        }
        assert forall|values: Seq<K::Real>, x: K::Real, y: K::Real| #[trigger]
            is_mean(k, values, x) && #[trigger] is_mean(k, values, y) implies x == y by {
            lemma_mean_is_one(k, values, x, y);
        }
    }
    lemma_equal_members_give_equal_runs(k, p, a, b);
}

} // verus!

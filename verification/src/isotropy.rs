//! Diffraction has no preferred axis.
//!
//! A transfer function sees the wavenumber along x in its columns and the wavenumber
//! along y in its rows, and treats the two alike. So a diffraction turns with the field
//! that it acts on, a beam that is launched round stays round, and a step through vacuum
//! is one diffraction over its whole length.
use crate::cases::{
    as_ints, is_propagate_done, is_propagate_run, is_record, is_traversal, lemma_schedule,
    spec_frame_every, PathCase, PropagateParams, PropagateRun,
};
use crate::field::Field;
use crate::grid::{frequency_of, is_grid_size};
use crate::medium::{is_uniform, Haze, Medium, UniformExtinction, Vacuum};
use crate::optics::Optics;
use crate::plane::Plane;
use crate::propagate::{
    is_angular_kernel, is_diffracted, is_edge, is_index, is_intensity, is_kernel, is_passed,
    is_product, is_rolled_impulse, is_run, is_slab, is_slab_answer, is_square, is_staged, is_step,
    is_step_at, law_vacuum_slab_is_lossless, CachedKernel, DiffractionMethod, March,
};
use crate::transparency::{counts_reproducibly, diffracts_reproducibly, lemma_same_samples};
use vstd::prelude::*;

verus! {

/// `w` is `u` with its two axes exchanged.
pub open spec fn is_turned<T>(u: Seq<Seq<T>>, w: Seq<Seq<T>>, n: int) -> bool {
    forall|j: int, i: int| 0 <= j < n && 0 <= i < n ==> #[trigger] w[j][i] == u[i][j]
}

/// The samples are the same under exchange of the two axes.
pub open spec fn is_round<T>(u: Seq<Seq<T>>, n: int) -> bool {
    is_turned(u, u, n)
}

/// The arithmetic treats the two axes alike: the transfer, the impulse response and the
/// Gaussian are symmetric in x and y, a product of two numbers does not depend on their
/// order, and the transforms turn with what they transform.
#[verifier::opaque]
pub open spec fn knows_no_axis<K: Optics>(k: K, n: int) -> bool {
    &&& forall|dz: K::Real, x: K::Real, y: K::Real, a: K::Complex, b: K::Complex|
        #![trigger call_ensures(K::transfer, (&k, dz, x, y), a), call_ensures(K::transfer, (&k, dz, y, x), b)]
        call_ensures(K::transfer, (&k, dz, x, y), a) && call_ensures(
            K::transfer,
            (&k, dz, y, x),
            b,
        ) ==> a == b
    &&& forall|dz: K::Real, x: isize, y: isize, a: K::Complex, b: K::Complex|
        #![trigger call_ensures(K::impulse, (&k, dz, x, y), a), call_ensures(K::impulse, (&k, dz, y, x), b)]
        call_ensures(K::impulse, (&k, dz, x, y), a) && call_ensures(K::impulse, (&k, dz, y, x), b)
            ==> a == b
    &&& forall|w0: K::Real, x: isize, y: isize, a: K::Complex, b: K::Complex|
        #![trigger call_ensures(K::gaussian, (&k, w0, x, y), a), call_ensures(K::gaussian, (&k, w0, y, x), b)]
        call_ensures(K::gaussian, (&k, w0, x, y), a) && call_ensures(
            K::gaussian,
            (&k, w0, y, x),
            b,
        ) ==> a == b
    &&& forall|x: K::Real, y: K::Real, a: K::Real, b: K::Real|
        #![trigger call_ensures(K::times, (&k, x, y), a), call_ensures(K::times, (&k, y, x), b)]
        call_ensures(K::times, (&k, x, y), a) && call_ensures(K::times, (&k, y, x), b) ==> a == b
    &&& forall|
        u: Plane<K::Complex>,
        w: Plane<K::Complex>,
        a: Plane<K::Complex>,
        b: Plane<K::Complex>,
    |
        #![trigger call_ensures(K::forward, (&k, &u), a), call_ensures(K::forward, (&k, &w), b)]
        call_ensures(K::forward, (&k, &u), a) && call_ensures(K::forward, (&k, &w), b) && is_square(
            u,
            n,
        ) && is_square(w, n) && is_turned(u@, w@, n) ==> is_turned(a@, b@, n)
    &&& forall|
        u: Plane<K::Complex>,
        w: Plane<K::Complex>,
        a: Plane<K::Complex>,
        b: Plane<K::Complex>,
    |
        #![trigger call_ensures(K::inverse, (&k, &u), a), call_ensures(K::inverse, (&k, &w), b)]
        call_ensures(K::inverse, (&k, &u), a) && call_ensures(K::inverse, (&k, &w), b) && is_square(
            u,
            n,
        ) && is_square(w, n) && is_turned(u@, w@, n) ==> is_turned(a@, b@, n)
}

/// Two kernels for one length are each other with the axes exchanged.
proof fn lemma_kernels_are_turned<K: Optics>(
    k: K,
    n: int,
    dz: K::Real,
    method: DiffractionMethod,
    g: Plane<K::Complex>,
    h: Plane<K::Complex>,
)
    requires
        knows_no_axis(k, n),
        diffracts_reproducibly(k),
        is_kernel(k, n, dz, method, g),
        is_kernel(k, n, dz, method, h),
    ensures
        is_turned(g@, h@, n),
{
    match method {
        DiffractionMethod::AngularSpectrum => {
            let p = choose|p: Seq<K::Real>| #[trigger] is_angular_kernel(k, n, dz, p, g);
            let q = choose|q: Seq<K::Real>| #[trigger] is_angular_kernel(k, n, dz, q, h);
            assert(p =~= q) by {
                reveal(diffracts_reproducibly);
            }
            assert forall|j: int, i: int| 0 <= j < n && 0 <= i < n implies #[trigger] h@[j][i]
                == g@[i][j] by {
                assert(call_ensures(K::transfer, (&k, dz, p[i], p[j]), h@[j][i]));
                assert(call_ensures(K::transfer, (&k, dz, p[j], p[i]), g@[i][j]));
                reveal(knows_no_axis);
            }
        },
        DiffractionMethod::FresnelImpulseResponse => {
            let p = choose|p: Plane<K::Complex>| #[trigger]
                is_rolled_impulse(k, n, dz, p) && call_ensures(K::forward, (&k, &p), g);
            let q = choose|p: Plane<K::Complex>| #[trigger]
                is_rolled_impulse(k, n, dz, p) && call_ensures(K::forward, (&k, &p), h);
            assert(is_turned(p@, q@, n)) by {
                reveal(knows_no_axis);
                assert forall|j: int, i: int| 0 <= j < n && 0 <= i < n implies #[trigger] q@[j][i]
                    == p@[i][j] by {
                    assert(p@[i][j] == p@[i][j]);
                }
            }
            reveal(knows_no_axis);
        },
    }
}

/// A transfer function treats the two axes alike.
pub proof fn law_kernel_treats_the_axes_alike<K: Optics>(
    k: K,
    n: int,
    dz: K::Real,
    method: DiffractionMethod,
    h: Plane<K::Complex>,
)
    requires
        knows_no_axis(k, n),
        diffracts_reproducibly(k),
        is_kernel(k, n, dz, method, h),
    ensures
        forall|j: int, i: int| 0 <= j < n && 0 <= i < n ==> #[trigger] h@[j][i] == h@[i][j],
{
    lemma_kernels_are_turned(k, n, dz, method, h, h);
}

/// A transfer that does not see the wavenumber along y gives every row of the transfer
/// function the same samples; one that does not see the wavenumber along x gives every
/// column the same.
pub proof fn law_each_wavenumber_has_its_axis<K: Optics>(
    k: K,
    n: int,
    dz: K::Real,
    h: Plane<K::Complex>,
)
    requires
        is_kernel(k, n, dz, DiffractionMethod::AngularSpectrum, h),
        diffracts_reproducibly(k),
    ensures
        (forall|x: K::Real, y: K::Real, z: K::Real, a: K::Complex, b: K::Complex|
            #![trigger call_ensures(K::transfer, (&k, dz, x, y), a), call_ensures(K::transfer, (&k, dz, x, z), b)]
            call_ensures(K::transfer, (&k, dz, x, y), a) && call_ensures(
                K::transfer,
                (&k, dz, x, z),
                b,
            ) ==> a == b) ==> forall|i: int, j: int, l: int|
            0 <= i < n && 0 <= j < n && 0 <= l < n ==> #[trigger] h@[j][i] == #[trigger] h@[l][i],
        (forall|x: K::Real, y: K::Real, z: K::Real, a: K::Complex, b: K::Complex|
            #![trigger call_ensures(K::transfer, (&k, dz, x, y), a), call_ensures(K::transfer, (&k, dz, z, y), b)]
            call_ensures(K::transfer, (&k, dz, x, y), a) && call_ensures(
                K::transfer,
                (&k, dz, z, y),
                b,
            ) ==> a == b) ==> forall|j: int, i: int, l: int|
            0 <= i < n && 0 <= j < n && 0 <= l < n ==> #[trigger] h@[j][i] == #[trigger] h@[j][l],
{
    let p = choose|p: Seq<K::Real>| #[trigger] is_angular_kernel(k, n, dz, p, h);
    assert forall|j: int, i: int| 0 <= j < n && 0 <= i < n implies call_ensures(
        K::transfer,
        (&k, dz, p[i], p[j]),
        #[trigger] h@[j][i],
    ) by {}
}

/// A transfer that is even in its wavenumbers gives opposite frequencies the same
/// sample, along either axis.
pub proof fn law_kernel_is_even<K: Optics>(
    k: K,
    n: int,
    dz: K::Real,
    h: Plane<K::Complex>,
    j: int,
    i: int,
)
    requires
        is_grid_size(n),
        n <= isize::MAX,
        is_kernel(k, n, dz, DiffractionMethod::AngularSpectrum, h),
        diffracts_reproducibly(k),
        forall|f: isize, g: isize, x: K::Real, y: K::Real, z: K::Real, a: K::Complex, b: K::Complex|
            #![trigger call_ensures(K::wavenumber, (&k, f), x), call_ensures(K::wavenumber, (&k, g), y), call_ensures(K::transfer, (&k, dz, x, z), a), call_ensures(K::transfer, (&k, dz, y, z), b)]
            call_ensures(K::wavenumber, (&k, f), x) && call_ensures(K::wavenumber, (&k, g), y) && f
                == -g && call_ensures(K::transfer, (&k, dz, x, z), a) && call_ensures(
                K::transfer,
                (&k, dz, y, z),
                b,
            ) ==> a == b,
        forall|f: isize, g: isize, x: K::Real, y: K::Real, z: K::Real, a: K::Complex, b: K::Complex|
            #![trigger call_ensures(K::wavenumber, (&k, f), x), call_ensures(K::wavenumber, (&k, g), y), call_ensures(K::transfer, (&k, dz, z, x), a), call_ensures(K::transfer, (&k, dz, z, y), b)]
            call_ensures(K::wavenumber, (&k, f), x) && call_ensures(K::wavenumber, (&k, g), y) && f
                == -g && call_ensures(K::transfer, (&k, dz, z, x), a) && call_ensures(
                K::transfer,
                (&k, dz, z, y),
                b,
            ) ==> a == b,
        0 <= j < n,
        0 < i < n,
    ensures
        h@[j][i] == h@[j][n - i],
        h@[i][j] == h@[n - i][j],
{
    let p = choose|p: Seq<K::Real>| #[trigger] is_angular_kernel(k, n, dz, p, h);
    if 2 * i != n {
        let (f, g) = (frequency_of(n, i) as isize, frequency_of(n, n - i) as isize);
        assert(f == -g);
        assert(call_ensures(K::wavenumber, (&k, f), p[i]));
        assert(call_ensures(K::wavenumber, (&k, g), p[n - i]));
        assert(call_ensures(K::transfer, (&k, dz, p[i], p[j]), h@[j][i]));
        assert(call_ensures(K::transfer, (&k, dz, p[n - i], p[j]), h@[j][n - i]));
        assert(call_ensures(K::transfer, (&k, dz, p[j], p[i]), h@[i][j]));
        assert(call_ensures(K::transfer, (&k, dz, p[j], p[n - i]), h@[n - i][j]));
    }
}

/// Diffraction turns with the field: of a field and the same field with its axes
/// exchanged, the diffracted fields are each other with the axes exchanged.
pub proof fn law_diffraction_turns_with_the_field<K: Optics>(
    k: K,
    n: int,
    dz: K::Real,
    u: Plane<K::Complex>,
    c: CachedKernel<K::Real, K::Complex>,
    v: Plane<K::Complex>,
    w: Plane<K::Complex>,
    d: CachedKernel<K::Real, K::Complex>,
    x: Plane<K::Complex>,
)
    requires
        knows_no_axis(k, n),
        diffracts_reproducibly(k),
        is_square(u, n),
        is_square(w, n),
        is_turned(u@, w@, n),
        is_diffracted(k, n, dz, u, c, v),
        is_diffracted(k, n, dz, w, d, x),
    ensures
        is_turned(v@, x@, n),
{
    assert(c.dz == dz && d.dz == dz && c.method == d.method) by {
        reveal(diffracts_reproducibly);
    }
    lemma_kernels_are_turned(k, n, dz, c.method, c.h, d.h);
    let (s, t) = choose|s: Plane<K::Complex>, t: Plane<K::Complex>|
        {
            &&& is_square(s, n)
            &&& #[trigger] call_ensures(K::forward, (&k, &u), s)
            &&& #[trigger] is_product(k, n, s, c.h, t)
            &&& call_ensures(K::inverse, (&k, &t), v)
        };
    let (a, b) = choose|s: Plane<K::Complex>, t: Plane<K::Complex>|
        {
            &&& is_square(s, n)
            &&& #[trigger] call_ensures(K::forward, (&k, &w), s)
            &&& #[trigger] is_product(k, n, s, d.h, t)
            &&& call_ensures(K::inverse, (&k, &t), x)
        };
    assert(is_turned(s@, a@, n)) by {
        reveal(knows_no_axis);
    }
    assert(is_turned(t@, b@, n)) by {
        reveal(diffracts_reproducibly);
        assert forall|j: int, i: int| 0 <= j < n && 0 <= i < n implies #[trigger] b@[j][i]
            == t@[i][j] by {
            assert(call_ensures(K::product, (&k, s@[i][j], c.h@[i][j]), t@[i][j]));
            assert(call_ensures(K::product, (&k, a@[j][i], d.h@[j][i]), b@[j][i]));
            assert(a@[j][i] == s@[i][j] && d.h@[j][i] == c.h@[i][j]);
        }
    }
    reveal(knows_no_axis);
}

/// A slab of uniform extinction keeps a beam round.
proof fn lemma_uniform_slab_keeps_round<K: Optics>(
    k: K,
    n: nat,
    medium: UniformExtinction<K::Real>,
    z_slab: usize,
    dz: K::Real,
    u: Plane<K::Complex>,
    v: Plane<K::Complex>,
)
    requires
        counts_reproducibly(k),
        medium.spec_n() == n,
        is_round(u@, n as int),
        is_slab(k, n, medium, z_slab, dz, u, Ok(v)),
    ensures
        is_round(v@, n as int),
{
    let (needs, index, loss) = choose|
        needs: bool,
        index: Result<Plane<K::Real>, ()>,
        loss: Option<Plane<K::Real>>,
    |
        {
            &&& call_ensures(
                <UniformExtinction<K::Real> as Medium<K>>::needs_intensity,
                (&medium, &k),
                needs,
            )
            &&& is_index(k, n as int, medium, z_slab, dz, u, needs, index)
            &&& is_slab_answer(k, n, medium, z_slab, dz, u, needs, index, loss, Ok(v))
        };
    let dn = index->Ok_0;
    assert(!needs);
    assert(call_ensures(
        <UniformExtinction<K::Real> as Medium<K>>::index_perturbation,
        (&medium, &k, z_slab),
        dn,
    ));
    assert(call_ensures(
        <UniformExtinction<K::Real> as Medium<K>>::extinction,
        (&medium, &k, z_slab),
        loss,
    ));
    reveal(counts_reproducibly);
    assert forall|j: int, i: int| 0 <= j < n && 0 <= i < n implies #[trigger] v@[j][i]
        == v@[i][j] by {
        assert(u@[j][i] == u@[i][j]);
        assert(dn@[j][i] == dn@[i][j]);
        match loss {
            Some(alpha) => {
                assert(alpha@[j][i] == alpha@[i][j]);
                assert(call_ensures(
                    K::retard_and_decay,
                    (&k, u@[j][i], dn@[j][i], alpha@[j][i], dz),
                    v@[j][i],
                ));
                assert(call_ensures(
                    K::retard_and_decay,
                    (&k, u@[i][j], dn@[i][j], alpha@[i][j], dz),
                    v@[i][j],
                ));
            },
            None => {
                assert(call_ensures(K::retard, (&k, u@[j][i], dn@[j][i], dz), v@[j][i]));
                assert(call_ensures(K::retard, (&k, u@[i][j], dn@[i][j], dz), v@[i][j]));
            },
        }
    }
}

/// A step through uniform extinction keeps a beam round.
proof fn lemma_step_keeps_round<K: Optics>(
    pre: March<K>,
    profile: Seq<K::Real>,
    medium: UniformExtinction<K::Real>,
    z_slab: usize,
    dz: K::Real,
    u: Plane<K::Complex>,
    post: March<K>,
    v: Plane<K::Complex>,
)
    requires
        counts_reproducibly(pre.optics),
        diffracts_reproducibly(pre.optics),
        knows_no_axis(pre.optics, pre.n as int),
        is_edge(pre.optics, pre.n as int, profile, pre.edge),
        medium.spec_n() == pre.n,
        is_square(u, pre.n as int),
        is_round(u@, pre.n as int),
        is_step(pre, medium, z_slab, dz, u, post, v, Ok(())),
    ensures
        (post.optics, post.n, post.edge, post.applies_edge) == (
            pre.optics,
            pre.n,
            pre.edge,
            pre.applies_edge,
        ),
        is_square(v, pre.n as int),
        is_round(v@, pre.n as int),
{
    let (k, n) = (pre.optics, pre.n as int);
    let (half, mid, a, b, late, c) = choose|
        half: K::Real,
        mid: March<K>,
        a: Plane<K::Complex>,
        b: Plane<K::Complex>,
        late: March<K>,
        c: Plane<K::Complex>,
    | #[trigger]
        is_staged(pre, medium, z_slab, dz, u, half, mid, a, b, late, c, post, v, Ok(()));
    let (g, h) = (mid.cached->0, late.cached->0);
    law_diffraction_turns_with_the_field(k, n, half, u, g, a, u, g, a);
    lemma_uniform_slab_keeps_round(k, pre.n, medium, z_slab, dz, a, b);
    law_diffraction_turns_with_the_field(k, n, half, b, h, c, b, h, c);
    if pre.applies_edge {
        assert forall|j: int, i: int| 0 <= j < n && 0 <= i < n implies #[trigger] v@[j][i]
            == v@[i][j] by {
            assert(c@[j][i] == c@[i][j]);
            assert(pre.edge[j][i] == pre.edge[i][j]) by {
                reveal(knows_no_axis);
                assert(call_ensures(K::times, (&k, profile[i], profile[j]), pre.edge[j][i]));
                assert(call_ensures(K::times, (&k, profile[j], profile[i]), pre.edge[i][j]));
            }
            reveal(counts_reproducibly);
            assert(call_ensures(K::mask, (&k, c@[j][i], pre.edge[j][i]), v@[j][i]));
            assert(call_ensures(K::mask, (&k, c@[i][j], pre.edge[i][j]), v@[i][j]));
        }
    }
}

/// A round beam stays round, step by step.
proof fn lemma_run_keeps_round<K: Optics>(
    pre: March<K>,
    profile: Seq<K::Real>,
    medium: UniformExtinction<K::Real>,
    dz: K::Real,
    u: Plane<K::Complex>,
    trace: Seq<(March<K>, Plane<K::Complex>)>,
    i: int,
)
    requires
        counts_reproducibly(pre.optics),
        diffracts_reproducibly(pre.optics),
        knows_no_axis(pre.optics, pre.n as int),
        is_edge(pre.optics, pre.n as int, profile, pre.edge),
        medium.spec_n() == pre.n,
        is_square(u, pre.n as int),
        is_round(u@, pre.n as int),
        is_run(pre, medium, dz, 0, u, trace),
        0 <= i < trace.len(),
    ensures
        (trace[i].0.optics, trace[i].0.n, trace[i].0.edge, trace[i].0.applies_edge) == (
            pre.optics,
            pre.n,
            pre.edge,
            pre.applies_edge,
        ),
        is_square(trace[i].1, pre.n as int),
        is_round(trace[i].1@, pre.n as int),
    decreases i,
{
    if i > 0 {
        lemma_run_keeps_round(pre, profile, medium, dz, u, trace, i - 1);
        assert(is_step_at(medium, dz, 0, trace, i - 1));
        lemma_step_keeps_round(
            trace[i - 1].0,
            profile,
            medium,
            (i - 1) as usize,
            dz,
            trace[i - 1].1,
            trace[i].0,
            trace[i].1,
        );
    }
}

/// The intensity of a round beam is round.
proof fn lemma_intensity_is_round<K: Optics>(
    k: K,
    n: int,
    u: Plane<K::Complex>,
    p: Plane<K::Real>,
)
    requires
        counts_reproducibly(k),
        is_round(u@, n),
        is_intensity(k, n, u, p),
    ensures
        is_round(p@, n),
{
    reveal(counts_reproducibly);
    assert forall|j: int, i: int| 0 <= j < n && 0 <= i < n implies #[trigger] p@[j][i]
        == p@[i][j] by {
        assert(u@[j][i] == u@[i][j]);
        assert(call_ensures(K::intensity, (&k, u@[j][i]), p@[j][i]));
        assert(call_ensures(K::intensity, (&k, u@[i][j]), p@[i][j]));
    }
}

/// A Gaussian beam is launched round and stays round: through a uniform atmosphere every
/// intensity that a run keeps, from the launch to the receiver, is the same under
/// exchange of its two axes.
pub proof fn law_round_beam_stays_round<K: PathCase + Haze>(
    k: K,
    p: PropagateParams<K::Real>,
    run: PropagateRun<K::Real>,
)
    requires
        is_propagate_run(k, p, Ok(run)),
        knows_no_axis(k, p.n as int),
        counts_reproducibly(k),
        diffracts_reproducibly(k),
    ensures
        forall|j: int, i: int|
            0 <= j < p.n && 0 <= i < p.n ==> #[trigger] run.record.final_intensity@[j][i]
                == run.record.final_intensity@[i][j],
        forall|m: int, j: int, i: int|
            0 <= m < run.record.snapshots@.len() && 0 <= j < p.n && 0 <= i < p.n
                ==> #[trigger] run.record.snapshots@[m]@[j][i] == run.record.snapshots@[m]@[i][j],
{
    let n = p.n as int;
    let (medium, launch, pre, post, u) = choose|
        medium: UniformExtinction<K::Real>,
        launch: Field<K::Real, K::Complex>,
        pre: March<K>,
        post: March<K>,
        u: Plane<K::Complex>,
    | #[trigger]
        is_propagate_done(k, p, medium, launch, pre, post, u, run);
    let trace = choose|trace: Seq<(March<K>, Plane<K::Complex>)>| #[trigger]
        is_traversal(pre, launch, medium, run.dz, p.steps, trace, post, u) && is_record(
            k,
            launch.grid.n as int,
            p.frames as int,
            trace,
            run.record,
        );
    let profile = choose|profile: Seq<K::Real>| #[trigger] is_edge(k, n, profile, pre.edge);
    assert(is_round(launch.u@, n)) by {
        reveal(knows_no_axis);
        assert forall|j: int, i: int| 0 <= j < n && 0 <= i < n implies #[trigger] launch.u@[j][i]
            == launch.u@[i][j] by {
            assert(launch.u@[i][j] == launch.u@[i][j]);
        }
    }
    assert forall|i: int| 0 <= i < trace.len() implies is_round(#[trigger] trace[i].1@, n) by {
        lemma_run_keeps_round(pre, profile, medium, run.dz, launch.u, trace, i);
    }
    lemma_intensity_is_round(k, n, trace.last().1, run.record.final_intensity);
    let steps = as_ints(run.record.snapshot_steps@);
    lemma_schedule(
        trace.len() - 1,
        spec_frame_every(trace.len() - 1, p.frames as int),
        trace.len() - 1,
    );
    assert forall|m: int, j: int, i: int|
        0 <= m < run.record.snapshots@.len() && 0 <= j < n && 0 <= i < n implies
        #[trigger] run.record.snapshots@[m]@[j][i] == run.record.snapshots@[m]@[i][j] by {
        assert(is_intensity(k, n, trace[steps[m]].1, run.record.snapshots@[m]));
        lemma_intensity_is_round(k, n, trace[steps[m]].1, run.record.snapshots@[m]);
    }
}

/// Over `dz` the transfers compose, the transforms undo each other, and a retardation by
/// no index is none.
#[verifier::opaque]
pub open spec fn composes_over<K: Optics>(k: K, dz: K::Real) -> bool {
    &&& call_ensures(K::is_subcritical, (&k, dz), true)
    &&& forall|half: K::Real| #[trigger]
        call_ensures(K::half, (&k, dz), half) ==> call_ensures(K::is_subcritical, (&k, half), true)
    &&& forall|
        t: Plane<K::Complex>,
        v: Plane<K::Complex>,
        w: Plane<K::Complex>,
        s: Plane<K::Complex>,
    |
        #![trigger call_ensures(K::inverse, (&k, &t), v), call_ensures(K::forward, (&k, &w), s)]
        call_ensures(K::inverse, (&k, &t), v) && v@ == w@ && call_ensures(K::forward, (&k, &w), s)
            ==> s@ == t@
    &&& forall|zero: K::Real, u: K::Complex, v: K::Complex|
        #![trigger call_ensures(K::retard, (&k, u, zero, dz), v)]
        call_ensures(K::zero, (&k,), zero) && call_ensures(K::retard, (&k, u, zero, dz), v) ==> v
            == u
    &&& forall|
        half: K::Real,
        x: K::Real,
        y: K::Real,
        a: K::Complex,
        b: K::Complex,
        s: K::Complex,
        p: K::Complex,
        q: K::Complex,
        r: K::Complex,
    |
        #![trigger call_ensures(K::transfer, (&k, half, x, y), a), call_ensures(K::transfer, (&k, dz, x, y), b), call_ensures(K::product, (&k, s, a), p), call_ensures(K::product, (&k, p, a), q), call_ensures(K::product, (&k, s, b), r)]
        call_ensures(K::half, (&k, dz), half) && call_ensures(K::transfer, (&k, half, x, y), a)
            && call_ensures(K::transfer, (&k, dz, x, y), b) && call_ensures(K::product, (&k, s, a), p)
            && call_ensures(K::product, (&k, p, a), q) && call_ensures(K::product, (&k, s, b), r)
            ==> q == r
}

/// A slab of vacuum leaves an amplitude as it is.
proof fn lemma_vacuum_slab_is_nothing<K: Optics>(
    k: K,
    n: nat,
    medium: Vacuum,
    z_slab: usize,
    dz: K::Real,
    u: Plane<K::Complex>,
    v: Plane<K::Complex>,
)
    requires
        composes_over(k, dz),
        medium.spec_n() == n,
        is_square(u, n as int),
        is_slab(k, n, medium, z_slab, dz, u, Ok(v)),
    ensures
        u@ == v@,
{
    law_vacuum_slab_is_lossless(k, n, medium, z_slab, dz, u, Ok(v));
    let (zero, dn) = choose|zero: K::Real, dn: Plane<K::Real>|
        {
            &&& #[trigger] call_ensures(K::zero, (&k,), zero)
            &&& #[trigger] is_uniform(dn, n as int, zero)
            &&& is_passed(k, n as int, dn, None, dz, u, v)
        };
    reveal(composes_over);
    assert forall|j: int, i: int| 0 <= j < n && 0 <= i < n implies #[trigger] u@[j][i]
        == v@[j][i] by {
        assert(dn@[j][i] == zero);
        assert(call_ensures(K::retard, (&k, u@[j][i], dn@[j][i], dz), v@[j][i]));
    }
    lemma_same_samples(u, v, n as int);
}

/// A step through vacuum, with no edge, is one diffraction over its whole length.
pub proof fn law_vacuum_step_is_one_diffraction<K: Optics>(
    pre: March<K>,
    medium: Vacuum,
    z_slab: usize,
    dz: K::Real,
    u: Plane<K::Complex>,
    post: March<K>,
    v: Plane<K::Complex>,
    d: CachedKernel<K::Real, K::Complex>,
    w: Plane<K::Complex>,
)
    requires
        !pre.applies_edge,
        medium.spec_n() == pre.n,
        diffracts_reproducibly(pre.optics),
        composes_over(pre.optics, dz),
        is_square(u, pre.n as int),
        is_step(pre, medium, z_slab, dz, u, post, v, Ok(())),
        is_diffracted(pre.optics, pre.n as int, dz, u, d, w),
    ensures
        v@ == w@,
{
    let (k, n) = (pre.optics, pre.n as int);
    let (half, mid, a, b, late, c) = choose|
        half: K::Real,
        mid: March<K>,
        a: Plane<K::Complex>,
        b: Plane<K::Complex>,
        late: March<K>,
        c: Plane<K::Complex>,
    | #[trigger]
        is_staged(pre, medium, z_slab, dz, u, half, mid, a, b, late, c, post, v, Ok(()));
    let (g, h) = (mid.cached->0, late.cached->0);
    lemma_vacuum_slab_is_nothing(k, pre.n, medium, z_slab, dz, a, b);
    assert(g.dz == half && h.dz == half && d.dz == dz && g.method
        == DiffractionMethod::AngularSpectrum && h.method == DiffractionMethod::AngularSpectrum
        && d.method == DiffractionMethod::AngularSpectrum) by {
        reveal(diffracts_reproducibly);
        reveal(composes_over);
    }
    let p = choose|p: Seq<K::Real>| #[trigger] is_angular_kernel(k, n, half, p, g.h);
    let q = choose|p: Seq<K::Real>| #[trigger] is_angular_kernel(k, n, half, p, h.h);
    let r = choose|p: Seq<K::Real>| #[trigger] is_angular_kernel(k, n, dz, p, d.h);
    assert(p =~= q && p =~= r) by {
        reveal(diffracts_reproducibly);
    }
    let (s0, t0) = choose|s: Plane<K::Complex>, t: Plane<K::Complex>|
        {
            &&& is_square(s, n)
            &&& #[trigger] call_ensures(K::forward, (&k, &u), s)
            &&& #[trigger] is_product(k, n, s, g.h, t)
            &&& call_ensures(K::inverse, (&k, &t), a)
        };
    let (s1, t1) = choose|s: Plane<K::Complex>, t: Plane<K::Complex>|
        {
            &&& is_square(s, n)
            &&& #[trigger] call_ensures(K::forward, (&k, &b), s)
            &&& #[trigger] is_product(k, n, s, h.h, t)
            &&& call_ensures(K::inverse, (&k, &t), c)
        };
    let (s2, t2) = choose|s: Plane<K::Complex>, t: Plane<K::Complex>|
        {
            &&& is_square(s, n)
            &&& #[trigger] call_ensures(K::forward, (&k, &u), s)
            &&& #[trigger] is_product(k, n, s, d.h, t)
            &&& call_ensures(K::inverse, (&k, &t), w)
        };
    assert(s0@ == s2@) by {
        reveal(diffracts_reproducibly);
    }
    assert(s1@ == t0@) by {
        lemma_forward_undoes(k, dz, t0, a, b, s1);
    }
    assert forall|j: int, i: int| 0 <= j < n && 0 <= i < n implies #[trigger] t1@[j][i]
        == t2@[j][i] by {
        let (x, y) = (p[i], p[j]);
        assert(call_ensures(K::transfer, (&k, half, x, y), g.h@[j][i]));
        assert(call_ensures(K::transfer, (&k, half, x, y), h.h@[j][i]));
        assert(call_ensures(K::transfer, (&k, dz, x, y), d.h@[j][i]));
        assert(g.h@[j][i] == h.h@[j][i]) by {
            reveal(diffracts_reproducibly);
        }
        assert(call_ensures(K::product, (&k, s0@[j][i], g.h@[j][i]), t0@[j][i]));
        assert(call_ensures(K::product, (&k, s1@[j][i], h.h@[j][i]), t1@[j][i]));
        assert(call_ensures(K::product, (&k, s2@[j][i], d.h@[j][i]), t2@[j][i]));
        reveal(composes_over);
    }
    lemma_same_samples(t1, t2, n);
    reveal(diffracts_reproducibly);
}

/// Transforming what was transformed back gives what it was.
proof fn lemma_forward_undoes<K: Optics>(
    k: K,
    dz: K::Real,
    t: Plane<K::Complex>,
    a: Plane<K::Complex>,
    b: Plane<K::Complex>,
    s: Plane<K::Complex>,
)
    requires
        composes_over(k, dz),
        a@ == b@,
        call_ensures(K::inverse, (&k, &t), a),
        call_ensures(K::forward, (&k, &b), s),
    ensures
        s@ == t@,
{
    reveal(composes_over);
}

} // verus!

//! What a medium without extinction does: nothing that vacuum does not do.
//!
//! A slab whose extinction is zero is the slab of vacuum, sample for sample, and so
//! is a whole step through it, edge and book of absorbed power included. The laws
//! hold where the arithmetic of [`Optics`] is a function of its arguments.
use crate::field::{adds_intensity, is_power};
use crate::medium::{is_uniform, UniformExtinction, Vacuum};
use crate::optics::Optics;
use crate::plane::{flat, is_fold, is_fold_run, lemma_flat_unflat, Plane};
use crate::propagate::{
    is_angular_kernel, is_diffracted, is_edged, is_filtered, is_kernel, is_passed, is_product,
    is_rolled_impulse, is_slab, is_square, is_staged, is_step, law_vacuum_slab_is_lossless,
    CachedKernel, DiffractionMethod, March, PropagateError,
};
use vstd::prelude::*;

verus! {

/// The arithmetic on numbers and amplitudes is a function of its arguments.
#[verifier::opaque]
pub open spec fn counts_reproducibly<K: Optics>(optics: K) -> bool {
    &&& forall|a: K::Real, b: K::Real| #[trigger]
        call_ensures(K::zero, (&optics,), a) && #[trigger] call_ensures(K::zero, (&optics,), b) ==> a
            == b
    &&& forall|x: K::Real, a: K::Real, b: K::Real| #[trigger]
        call_ensures(K::half, (&optics, x), a) && #[trigger] call_ensures(K::half, (&optics, x), b)
            ==> a == b
    &&& forall|x: K::Real, y: K::Real, a: K::Real, b: K::Real| #[trigger]
        call_ensures(K::plus, (&optics, x, y), a) && #[trigger] call_ensures(
            K::plus,
            (&optics, x, y),
            b,
        ) ==> a == b
    &&& forall|c: K::Complex, a: K::Real, b: K::Real| #[trigger]
        call_ensures(K::intensity, (&optics, c), a) && #[trigger] call_ensures(
            K::intensity,
            (&optics, c),
            b,
        ) ==> a == b
    &&& forall|x: K::Real, a: K::Real, b: K::Real| #[trigger]
        call_ensures(K::power, (&optics, x), a) && #[trigger] call_ensures(
            K::power,
            (&optics, x),
            b,
        ) ==> a == b
    &&& forall|t: K::Real, x: K::Real, y: K::Real, a: K::Real, b: K::Real| #[trigger]
        call_ensures(K::absorb, (&optics, t, x, y), a) && #[trigger] call_ensures(
            K::absorb,
            (&optics, t, x, y),
            b,
        ) ==> a == b
    &&& forall|c: K::Complex, dn: K::Real, dz: K::Real, a: K::Complex, b: K::Complex| #[trigger]
        call_ensures(K::retard, (&optics, c, dn, dz), a) && #[trigger] call_ensures(
            K::retard,
            (&optics, c, dn, dz),
            b,
        ) ==> a == b
    &&& forall|
        c: K::Complex,
        dn: K::Real,
        alpha: K::Real,
        dz: K::Real,
        a: K::Complex,
        b: K::Complex,
    | #[trigger]
        call_ensures(K::retard_and_decay, (&optics, c, dn, alpha, dz), a) && #[trigger] call_ensures(
            K::retard_and_decay,
            (&optics, c, dn, alpha, dz),
            b,
        ) ==> a == b
    &&& forall|c: K::Complex, x: K::Real, a: K::Complex, b: K::Complex| #[trigger]
        call_ensures(K::mask, (&optics, c, x), a) && #[trigger] call_ensures(
            K::mask,
            (&optics, c, x),
            b,
        ) ==> a == b
}

/// Diffraction is a function of its arguments: which kernel a length takes, the
/// kernels' samples, the products and the two transforms. Lengths that are found to
/// be the same are one length.
#[verifier::opaque]
pub open spec fn diffracts_reproducibly<K: Optics>(optics: K) -> bool {
    &&& forall|x: K::Real, y: K::Real| #[trigger]
        call_ensures(K::same_length, (&optics, x, y), true) ==> x == y
    &&& forall|x: K::Real|
        !(#[trigger] call_ensures(K::is_subcritical, (&optics, x), true) && call_ensures(
            K::is_subcritical,
            (&optics, x),
            false,
        ))
    &&& forall|f: isize, a: K::Real, b: K::Real| #[trigger]
        call_ensures(K::wavenumber, (&optics, f), a) && #[trigger] call_ensures(
            K::wavenumber,
            (&optics, f),
            b,
        ) ==> a == b
    &&& forall|dz: K::Real, x: K::Real, y: K::Real, a: K::Complex, b: K::Complex| #[trigger]
        call_ensures(K::transfer, (&optics, dz, x, y), a) && #[trigger] call_ensures(
            K::transfer,
            (&optics, dz, x, y),
            b,
        ) ==> a == b
    &&& forall|dz: K::Real, x: isize, y: isize, a: K::Complex, b: K::Complex| #[trigger]
        call_ensures(K::impulse, (&optics, dz, x, y), a) && #[trigger] call_ensures(
            K::impulse,
            (&optics, dz, x, y),
            b,
        ) ==> a == b
    &&& forall|x: K::Complex, y: K::Complex, a: K::Complex, b: K::Complex| #[trigger]
        call_ensures(K::product, (&optics, x, y), a) && #[trigger] call_ensures(
            K::product,
            (&optics, x, y),
            b,
        ) ==> a == b
    &&& forall|
        u: Plane<K::Complex>,
        w: Plane<K::Complex>,
        a: Plane<K::Complex>,
        b: Plane<K::Complex>,
    | #[trigger]
        call_ensures(K::forward, (&optics, &u), a) && #[trigger] call_ensures(
            K::forward,
            (&optics, &w),
            b,
        ) && u@ == w@ ==> a@ == b@
    &&& forall|
        u: Plane<K::Complex>,
        w: Plane<K::Complex>,
        a: Plane<K::Complex>,
        b: Plane<K::Complex>,
    | #[trigger]
        call_ensures(K::inverse, (&optics, &u), a) && #[trigger] call_ensures(
            K::inverse,
            (&optics, &w),
            b,
        ) && u@ == w@ ==> a@ == b@
}

pub(crate) proof fn lemma_same_samples<T>(a: Plane<T>, b: Plane<T>, n: int)
    requires
        is_square(a, n),
        is_square(b, n),
        forall|j: int, i: int| 0 <= j < n && 0 <= i < n ==> #[trigger] a@[j][i] == b@[j][i],
    ensures
        a@ == b@,
{
    assert forall|j: int| 0 <= j < n implies a@[j] == b@[j] by {
        assert(a@[j].len() == n && b@[j].len() == n);
        assert(a@[j] =~= b@[j]);
    }
    assert(a@ =~= b@);
}

proof fn lemma_kernel_is_one<K: Optics>(
    optics: K,
    n: int,
    dz: K::Real,
    method: DiffractionMethod,
    g: Plane<K::Complex>,
    h: Plane<K::Complex>,
)
    requires
        diffracts_reproducibly(optics),
        is_kernel(optics, n, dz, method, g),
        is_kernel(optics, n, dz, method, h),
    ensures
        g@ == h@,
{
    reveal(diffracts_reproducibly);
    match method {
        DiffractionMethod::AngularSpectrum => {
            let k = choose|k: Seq<K::Real>| #[trigger] is_angular_kernel(optics, n, dz, k, g);
            let l = choose|k: Seq<K::Real>| #[trigger] is_angular_kernel(optics, n, dz, k, h);
            assert(k =~= l);
            assert forall|j: int, i: int| 0 <= j < n && 0 <= i < n implies #[trigger] g@[j][i]
                == h@[j][i] by {
                assert(call_ensures(K::transfer, (&optics, dz, k[i], k[j]), g@[j][i]));
                assert(call_ensures(K::transfer, (&optics, dz, l[i], l[j]), h@[j][i]));
            }
            lemma_same_samples(g, h, n);
        },
        DiffractionMethod::FresnelImpulseResponse => {
            let p = choose|p: Plane<K::Complex>| #[trigger]
                is_rolled_impulse(optics, n, dz, p) && call_ensures(K::forward, (&optics, &p), g);
            let q = choose|p: Plane<K::Complex>| #[trigger]
                is_rolled_impulse(optics, n, dz, p) && call_ensures(K::forward, (&optics, &p), h);
            assert forall|j: int, i: int| 0 <= j < n && 0 <= i < n implies #[trigger] p@[j][i]
                == q@[j][i] by {
                assert(q@[j][i] == q@[j][i]);
            }
            lemma_same_samples(p, q, n);
        },
    }
}

proof fn lemma_filter_is_one<K: Optics>(
    optics: K,
    n: int,
    g: Plane<K::Complex>,
    h: Plane<K::Complex>,
    u: Plane<K::Complex>,
    w: Plane<K::Complex>,
    a: Plane<K::Complex>,
    b: Plane<K::Complex>,
)
    requires
        diffracts_reproducibly(optics),
        g@ == h@,
        u@ == w@,
        is_filtered(optics, n, g, u, a),
        is_filtered(optics, n, h, w, b),
    ensures
        a@ == b@,
{
    reveal(diffracts_reproducibly);
    let (s, t) = choose|s: Plane<K::Complex>, t: Plane<K::Complex>|
        {
            &&& is_square(s, n)
            &&& #[trigger] call_ensures(K::forward, (&optics, &u), s)
            &&& #[trigger] is_product(optics, n, s, g, t)
            &&& call_ensures(K::inverse, (&optics, &t), a)
        };
    let (x, y) = choose|s: Plane<K::Complex>, t: Plane<K::Complex>|
        {
            &&& is_square(s, n)
            &&& #[trigger] call_ensures(K::forward, (&optics, &w), s)
            &&& #[trigger] is_product(optics, n, s, h, t)
            &&& call_ensures(K::inverse, (&optics, &t), b)
        };
    assert(s@ == x@);
    assert forall|j: int, i: int| 0 <= j < n && 0 <= i < n implies #[trigger] t@[j][i]
        == y@[j][i] by {
        assert(call_ensures(K::product, (&optics, s@[j][i], g@[j][i]), t@[j][i]));
        assert(call_ensures(K::product, (&optics, x@[j][i], h@[j][i]), y@[j][i]));
    }
    lemma_same_samples(t, y, n);
}

pub(crate) proof fn lemma_diffraction_is_one<K: Optics>(
    optics: K,
    n: int,
    dz: K::Real,
    u: Plane<K::Complex>,
    w: Plane<K::Complex>,
    k: CachedKernel<K::Real, K::Complex>,
    l: CachedKernel<K::Real, K::Complex>,
    a: Plane<K::Complex>,
    b: Plane<K::Complex>,
)
    requires
        diffracts_reproducibly(optics),
        u@ == w@,
        is_diffracted(optics, n, dz, u, k, a),
        is_diffracted(optics, n, dz, w, l, b),
    ensures
        a@ == b@,
{
    assert(k.dz == dz && l.dz == dz && k.method == l.method) by {
        reveal(diffracts_reproducibly);
    }
    lemma_kernel_is_one(optics, n, dz, k.method, k.h, l.h);
    lemma_filter_is_one(optics, n, k.h, l.h, u, w, a, b);
}

proof fn lemma_sums_are_one<K: Optics>(
    optics: K,
    rows: Seq<Seq<K::Complex>>,
    width: nat,
    zero: K::Real,
    run: Seq<K::Real>,
    other: Seq<K::Real>,
    k: int,
)
    requires
        counts_reproducibly(optics),
        is_fold_run(rows, width, zero, adds_intensity(optics), run),
        is_fold_run(rows, width, zero, adds_intensity(optics), other),
        0 <= k <= rows.len() * width,
    ensures
        run[k] == other[k],
    decreases k,
{
    if k > 0 {
        let at = k - 1;
        lemma_sums_are_one(optics, rows, width, zero, run, other, at);
        let w = width as int;
        assert(w > 0) by (nonlinear_arith)
            requires
                0 < k <= rows.len() * w,
                w >= 0,
        ;
        lemma_flat_unflat(w, at);
        let (j, i) = (at / w, at % w);
        assert(j < rows.len()) by (nonlinear_arith)
            requires
                w > 0,
                i >= 0,
                at == j * w + i,
                at < rows.len() * w,
        ;
        assert(flat(w, j, i) == at);
        assert(adds_intensity(optics)(run[at], j, i, rows[j][i], run[at + 1]));
        assert(adds_intensity(optics)(other[at], j, i, rows[j][i], other[at + 1]));
        reveal(counts_reproducibly);
    }
}

pub(crate) proof fn lemma_power_is_one<K: Optics>(
    optics: K,
    rows: Seq<Seq<K::Complex>>,
    width: nat,
    p: K::Real,
    q: K::Real,
)
    requires
        counts_reproducibly(optics),
        is_power(optics, rows, width, p),
        is_power(optics, rows, width, q),
    ensures
        p == q,
{
    let (zero, sum) = choose|zero: K::Real, sum: K::Real|
        {
            &&& #[trigger] call_ensures(K::zero, (&optics,), zero)
            &&& #[trigger] is_fold(rows, width, zero, adds_intensity(optics), sum)
            &&& call_ensures(K::power, (&optics, sum), p)
        };
    let (naught, total) = choose|zero: K::Real, sum: K::Real|
        {
            &&& #[trigger] call_ensures(K::zero, (&optics,), zero)
            &&& #[trigger] is_fold(rows, width, zero, adds_intensity(optics), sum)
            &&& call_ensures(K::power, (&optics, sum), q)
        };
    assert(zero == naught) by {
        reveal(counts_reproducibly);
    }
    let run = choose|run: Seq<K::Real>| #[trigger]
        is_fold_run(rows, width, zero, adds_intensity(optics), run) && run.last() == sum;
    let other = choose|run: Seq<K::Real>| #[trigger]
        is_fold_run(rows, width, zero, adds_intensity(optics), run) && run.last() == total;
    lemma_sums_are_one(optics, rows, width, zero, run, other, (rows.len() * width) as int);
    reveal(counts_reproducibly);
}

pub(crate) proof fn lemma_edge_is_one<K: Optics>(
    pre: March<K>,
    fore: March<K>,
    u: Plane<K::Complex>,
    w: Plane<K::Complex>,
    post: March<K>,
    after: March<K>,
    a: Plane<K::Complex>,
    b: Plane<K::Complex>,
)
    requires
        counts_reproducibly(pre.optics),
        fore == (March { cached: fore.cached, ..pre }),
        u@ == w@,
        is_edged(pre, u, post, a),
        is_edged(fore, w, after, b),
    ensures
        a@ == b@,
        post.absorbed == after.absorbed,
{
    if pre.applies_edge {
        let n = pre.n as int;
        assert forall|j: int, i: int| 0 <= j < n && 0 <= i < n implies #[trigger] a@[j][i]
            == b@[j][i] by {
            assert(call_ensures(K::mask, (&pre.optics, u@[j][i], pre.edge[j][i]), a@[j][i]));
            assert(call_ensures(K::mask, (&pre.optics, w@[j][i], pre.edge[j][i]), b@[j][i]));
            reveal(counts_reproducibly);
        }
        lemma_same_samples(a, b, n);
        let (p, q) = choose|before: K::Real, after: K::Real|
            {
                &&& #[trigger] is_power(pre.optics, u@, pre.n, before)
                &&& #[trigger] is_power(pre.optics, a@, pre.n, after)
                &&& call_ensures(
                    K::absorb,
                    (&pre.optics, pre.absorbed, before, after),
                    post.absorbed,
                )
            };
        let (r, s) = choose|before: K::Real, late: K::Real|
            {
                &&& #[trigger] is_power(fore.optics, w@, fore.n, before)
                &&& #[trigger] is_power(fore.optics, b@, fore.n, late)
                &&& call_ensures(
                    K::absorb,
                    (&fore.optics, fore.absorbed, before, late),
                    after.absorbed,
                )
            };
        lemma_power_is_one(pre.optics, u@, pre.n, p, r);
        lemma_power_is_one(pre.optics, a@, pre.n, q, s);
        reveal(counts_reproducibly);
    }
}

proof fn lemma_clear_slab_is_one<K: Optics>(
    optics: K,
    n: nat,
    medium: UniformExtinction<K::Real>,
    vacuum: Vacuum,
    z_slab: usize,
    dz: K::Real,
    u: Plane<K::Complex>,
    w: Plane<K::Complex>,
    r: Result<Plane<K::Complex>, PropagateError<()>>,
    s: Result<Plane<K::Complex>, PropagateError<()>>,
)
    requires
        is_slab(optics, n, medium, z_slab, dz, u, r),
        is_slab(optics, n, vacuum, z_slab, dz, w, s),
        u@ == w@,
        medium.spec_n() == n,
        vacuum.spec_n() == n,
        !call_ensures(K::is_zero, (&optics, medium.spec_alpha()), false),
        counts_reproducibly(optics),
    ensures
        r matches Ok(a) && (s matches Ok(b) && a@ == b@),
{
    law_vacuum_slab_is_lossless(optics, n, vacuum, z_slab, dz, w, s);
    assert(r matches Ok(v) && exists|zero: K::Real, dn: Plane<K::Real>|
        {
            &&& #[trigger] call_ensures(K::zero, (&optics,), zero)
            &&& #[trigger] is_uniform(dn, n as int, zero)
            &&& is_passed(optics, n as int, dn, None, dz, u, v)
        });
    let (a, b) = (r->Ok_0, s->Ok_0);
    reveal(counts_reproducibly);
    assert forall|j: int, i: int| 0 <= j < n && 0 <= i < n implies #[trigger] a@[j][i]
        == b@[j][i] by {
        assert(b@[j][i] == b@[j][i]);
    }
    lemma_same_samples(a, b, n as int);
}

/// An extinction of zero is no extinction: a slab of it leaves an amplitude with the
/// very samples that a slab of vacuum leaves it with.
pub proof fn law_zero_extinction_is_vacuum<K: Optics>(
    optics: K,
    n: nat,
    medium: UniformExtinction<K::Real>,
    vacuum: Vacuum,
    z_slab: usize,
    dz: K::Real,
    u: Plane<K::Complex>,
    r: Result<Plane<K::Complex>, PropagateError<()>>,
    s: Result<Plane<K::Complex>, PropagateError<()>>,
)
    requires
        is_slab(optics, n, medium, z_slab, dz, u, r),
        is_slab(optics, n, vacuum, z_slab, dz, u, s),
        medium.spec_n() == n,
        vacuum.spec_n() == n,
        !call_ensures(K::is_zero, (&optics, medium.spec_alpha()), false),
        counts_reproducibly(optics),
    ensures
        r matches Ok(v) && (s matches Ok(w) && v@ == w@),
{
    lemma_clear_slab_is_one(optics, n, medium, vacuum, z_slab, dz, u, u, r, s);
}

/// So is a whole step: through a medium whose extinction is zero it leaves the very
/// samples that it leaves through vacuum, and books the same absorbed power.
pub proof fn law_zero_extinction_step_is_vacuum<K: Optics>(
    pre: March<K>,
    medium: UniformExtinction<K::Real>,
    vacuum: Vacuum,
    z_slab: usize,
    dz: K::Real,
    u: Plane<K::Complex>,
    post: March<K>,
    v: Plane<K::Complex>,
    after: March<K>,
    w: Plane<K::Complex>,
)
    requires
        is_step(pre, medium, z_slab, dz, u, post, v, Ok(())),
        is_step(pre, vacuum, z_slab, dz, u, after, w, Ok(())),
        medium.spec_n() == pre.n,
        vacuum.spec_n() == pre.n,
        !call_ensures(K::is_zero, (&pre.optics, medium.spec_alpha()), false),
        counts_reproducibly(pre.optics),
        diffracts_reproducibly(pre.optics),
    ensures
        v@ == w@,
        post.absorbed == after.absorbed,
{
    let n = pre.n as int;
    let (half, mid, a, b, late, c) = choose|
        half: K::Real,
        mid: March<K>,
        a: Plane<K::Complex>,
        b: Plane<K::Complex>,
        late: March<K>,
        c: Plane<K::Complex>,
    | #[trigger]
        is_staged(pre, medium, z_slab, dz, u, half, mid, a, b, late, c, post, v, Ok(()));
    let (half2, mid2, a2, b2, late2, c2) = choose|
        half: K::Real,
        mid: March<K>,
        a: Plane<K::Complex>,
        b: Plane<K::Complex>,
        late: March<K>,
        c: Plane<K::Complex>,
    | #[trigger]
        is_staged(pre, vacuum, z_slab, dz, u, half, mid, a, b, late, c, after, w, Ok(()));
    assert(half == half2) by {
        reveal(counts_reproducibly);
    }
    lemma_diffraction_is_one(pre.optics, n, half, u, u, mid.cached->0, mid2.cached->0, a, a2);
    lemma_clear_slab_is_one(pre.optics, pre.n, medium, vacuum, z_slab, dz, a, a2, Ok(b), Ok(b2));
    lemma_diffraction_is_one(pre.optics, n, half, b, b2, late.cached->0, late2.cached->0, c, c2);
    lemma_edge_is_one(late, late2, c, c2, post, after, v, w);
}

} // verus!

//! One cell of a sweep on a weighted line: its half-step faces from its
//! neighbours, and its update from the fluxes through its two interfaces.
//!
//! The interface areas multiply inside each flux difference. The geometric
//! source is written as the same weighted difference of one pressure, so that
//! it cancels the pressure part of the flux difference of a uniform state.
use crate::euler1d::Conserved;
use crate::euler2d::{
    dir_flux, is_dir_hllc, is_packed, is_unpacked, pack, Conserved2d, Dir, Faces, Metric,
    Transverse,
};
use crate::riemann::{
    agrees, are_evolved, are_hancock_faces, are_sides, cancels, is_difference, is_exact_in,
    is_flux_update, is_hllc, is_lower, is_minmod, is_moved, is_reduced, is_reproducible, is_slope,
    is_upper, lemma_hllc_agrees, lemma_hllc_is_one, lower_face, minmod, moved, reduced, upper_face,
    Acoustics,
};
use vstd::prelude::*;

verus! {

/// A relation holds component by component.
pub open spec fn each2d<R>(
    rel: spec_fn(R, R, R) -> bool,
    a: Conserved2d<R>,
    b: Conserved2d<R>,
    c: Conserved2d<R>,
) -> bool {
    &&& rel(a.rho, b.rho, c.rho)
    &&& rel(a.mom_r, b.mom_r, c.mom_r)
    &&& rel(a.mom_x, b.mom_x, c.mom_x)
    &&& rel(a.energy, b.energy, c.energy)
}

/// `m` is the limited slope between three values in a row.
pub open spec fn is_limited<G: Acoustics>(
    gas: G,
    before: G::Real,
    at: G::Real,
    after: G::Real,
    m: G::Real,
) -> bool {
    exists|back: G::Real, ahead: G::Real|
        {
            &&& #[trigger] call_ensures(G::minus, (&gas, at, before), back)
            &&& #[trigger] call_ensures(G::minus, (&gas, after, at), ahead)
            &&& is_minmod(gas, back, ahead, m)
        }
}

/// `s` is the limited slope of a cell between its neighbours.
pub open spec fn is_slope2d<G: Acoustics>(
    gas: G,
    before: Conserved2d<G::Real>,
    cell: Conserved2d<G::Real>,
    after: Conserved2d<G::Real>,
    s: Conserved2d<G::Real>,
) -> bool {
    &&& is_limited(gas, before.rho, cell.rho, after.rho, s.rho)
    &&& is_limited(gas, before.mom_r, cell.mom_r, after.mom_r, s.mom_r)
    &&& is_limited(gas, before.mom_x, cell.mom_x, after.mom_x, s.mom_x)
    &&& is_limited(gas, before.energy, cell.energy, after.energy, s.energy)
}

/// The two faces of a cell of slope `s`, before they are evolved.
pub open spec fn are_sides2d<G: Acoustics>(
    gas: G,
    cell: Conserved2d<G::Real>,
    s: Conserved2d<G::Real>,
    lo: Conserved2d<G::Real>,
    hi: Conserved2d<G::Real>,
) -> bool {
    &&& each2d(|x: G::Real, y: G::Real, z: G::Real| is_lower(gas, x, y, z), cell, s, lo)
    &&& each2d(|x: G::Real, y: G::Real, z: G::Real| is_upper(gas, x, y, z), cell, s, hi)
}

/// `d` is `a` times `x` less `b` times `y`.
pub open spec fn is_weighted_difference<G: Acoustics>(
    gas: G,
    a: G::Real,
    x: G::Real,
    b: G::Real,
    y: G::Real,
    d: G::Real,
) -> bool {
    exists|p: G::Real, q: G::Real|
        {
            &&& #[trigger] call_ensures(G::times, (&gas, a, x), p)
            &&& #[trigger] call_ensures(G::times, (&gas, b, y), q)
            &&& call_ensures(G::minus, (&gas, p, q), d)
        }
}

/// `d` is `a` of the flux `f` less `b` of the flux `g`, component by component.
pub open spec fn is_flux_difference<G: Acoustics>(
    gas: G,
    a: G::Real,
    f: Conserved2d<G::Real>,
    b: G::Real,
    g: Conserved2d<G::Real>,
    d: Conserved2d<G::Real>,
) -> bool {
    each2d(
        |x: G::Real, y: G::Real, z: G::Real| is_weighted_difference(gas, a, x, b, y, z),
        f,
        g,
        d,
    )
}

/// `f` is the physical flux of `u` along a sweep.
pub open spec fn is_dir_flux<K: Transverse>(
    k: K,
    u: Conserved2d<K::Real>,
    dir: Dir,
    f: Conserved2d<K::Real>,
) -> bool {
    exists|c: Conserved<K::Real>, v: K::Real, g: Conserved<K::Real>|
        {
            &&& #[trigger] is_packed(k, u, dir, c, v)
            &&& #[trigger] call_ensures(K::flux, (&k, c), g)
            &&& is_unpacked(k, g, v, dir, f)
        }
}

/// `p` is the pressure of `u`, by way of its one-dimensional state.
pub open spec fn is_pressure<K: Transverse>(
    k: K,
    u: Conserved2d<K::Real>,
    dir: Dir,
    p: K::Real,
) -> bool {
    exists|c: Conserved<K::Real>, v: K::Real| #[trigger]
        is_packed(k, u, dir, c, v) && call_ensures(K::pressure, (&k, c), p)
}

/// `s` is the geometric source of a cell at pressure `p`: the weighted
/// difference of that one pressure.
pub open spec fn is_geometric_source<G: Acoustics>(
    gas: G,
    metric: Metric<G::Real>,
    p: G::Real,
    s: G::Real,
) -> bool {
    is_weighted_difference(gas, metric.upper, p, metric.lower, p, s)
}

/// `after` is `before` with a geometric source added to its radial momentum.
pub open spec fn is_pushed<K: Transverse>(
    k: K,
    dir: Dir,
    metric: Metric<K::Real>,
    cell: Conserved2d<K::Real>,
    before: Conserved2d<K::Real>,
    after: Conserved2d<K::Real>,
) -> bool {
    exists|p: K::Real, s: K::Real|
        {
            &&& #[trigger] is_pressure(k, cell, dir, p)
            &&& #[trigger] is_geometric_source(k, metric, p, s)
            &&& call_ensures(K::plus, (&k, before.mom_r, s), after.mom_r)
            &&& after == (Conserved2d { mom_r: after.mom_r, ..before })
        }
}

/// `after` is `before` with a geometric source taken from its radial momentum.
pub open spec fn is_relieved<K: Transverse>(
    k: K,
    dir: Dir,
    metric: Metric<K::Real>,
    cell: Conserved2d<K::Real>,
    before: Conserved2d<K::Real>,
    after: Conserved2d<K::Real>,
) -> bool {
    exists|p: K::Real, s: K::Real|
        {
            &&& #[trigger] is_pressure(k, cell, dir, p)
            &&& #[trigger] is_geometric_source(k, metric, p, s)
            &&& call_ensures(K::minus, (&k, before.mom_r, s), after.mom_r)
            &&& after == (Conserved2d { mom_r: after.mom_r, ..before })
        }
}

/// `d` drives the half step of a cell: the weighted difference of its two
/// faces' fluxes, with the geometric source where there is one.
pub open spec fn is_half_step_drive<K: Transverse>(
    k: K,
    dir: Dir,
    cell: Conserved2d<K::Real>,
    lo: Conserved2d<K::Real>,
    hi: Conserved2d<K::Real>,
    metric: Metric<K::Real>,
    geometric: bool,
    d: Conserved2d<K::Real>,
) -> bool {
    exists|fl: Conserved2d<K::Real>, fr: Conserved2d<K::Real>, bare: Conserved2d<K::Real>|
        {
            &&& #[trigger] is_dir_flux(k, lo, dir, fl)
            &&& #[trigger] is_dir_flux(k, hi, dir, fr)
            &&& #[trigger] is_flux_difference(k, metric.lower, fl, metric.upper, fr, bare)
            &&& if geometric {
                is_pushed(k, dir, metric, cell, bare, d)
            } else {
                d == bare
            }
        }
}

/// `m` is half way between `a` and `b`.
pub open spec fn is_mid<G: Acoustics>(gas: G, a: G::Real, b: G::Real, m: G::Real) -> bool {
    exists|s: G::Real| #[trigger]
        call_ensures(G::plus, (&gas, a, b), s) && call_ensures(G::half, (&gas, s), m)
}

/// The faces of a cell, evolved by `weight` of `d`, and the state half way
/// between them.
pub open spec fn are_evolved2d<G: Acoustics>(
    gas: G,
    weight: G::Real,
    lo: Conserved2d<G::Real>,
    hi: Conserved2d<G::Real>,
    d: Conserved2d<G::Real>,
    faces: Faces<G::Real>,
) -> bool {
    &&& each2d(
        |x: G::Real, y: G::Real, z: G::Real| is_moved(gas, weight, x, y, z),
        lo,
        d,
        faces.left,
    )
    &&& each2d(
        |x: G::Real, y: G::Real, z: G::Real| is_moved(gas, weight, x, y, z),
        hi,
        d,
        faces.right,
    )
    &&& each2d(
        |x: G::Real, y: G::Real, z: G::Real| is_mid(gas, x, y, z),
        faces.left,
        faces.right,
        faces.centre,
    )
}

/// The reconstruction of a cell from its neighbours and its metric.
pub open spec fn are_weighted_faces<K: Transverse>(
    k: K,
    weight: K::Real,
    dir: Dir,
    before: Conserved2d<K::Real>,
    cell: Conserved2d<K::Real>,
    after: Conserved2d<K::Real>,
    metric: Metric<K::Real>,
    geometric: bool,
    faces: Faces<K::Real>,
) -> bool {
    exists|
        s: Conserved2d<K::Real>,
        lo: Conserved2d<K::Real>,
        hi: Conserved2d<K::Real>,
        d: Conserved2d<K::Real>,
    |
        {
            &&& is_slope2d(k, before, cell, after, s)
            &&& #[trigger] are_sides2d(k, cell, s, lo, hi)
            &&& #[trigger] is_half_step_drive(k, dir, cell, lo, hi, metric, geometric, d)
            &&& are_evolved2d(k, weight, lo, hi, d, faces)
        }
}

fn limited<G: Acoustics>(gas: &G, before: G::Real, at: G::Real, after: G::Real) -> (m: G::Real)
    ensures
        is_limited(*gas, before, at, after, m),
{
    let back: G::Real = gas.minus(at, before);
    let ahead: G::Real = gas.minus(after, at);
    minmod(gas, back, ahead)
}

fn weighted_difference<G: Acoustics>(
    gas: &G,
    a: G::Real,
    x: G::Real,
    b: G::Real,
    y: G::Real,
) -> (d: G::Real)
    ensures
        is_weighted_difference(*gas, a, x, b, y, d),
{
    let p: G::Real = gas.times(a, x);
    let q: G::Real = gas.times(b, y);
    gas.minus(p, q)
}

fn flux_difference<G: Acoustics>(
    gas: &G,
    a: G::Real,
    f: Conserved2d<G::Real>,
    b: G::Real,
    g: Conserved2d<G::Real>,
) -> (d: Conserved2d<G::Real>)
    ensures
        is_flux_difference(*gas, a, f, b, g, d),
{
    Conserved2d {
        rho: weighted_difference(gas, a, f.rho, b, g.rho),
        mom_r: weighted_difference(gas, a, f.mom_r, b, g.mom_r),
        mom_x: weighted_difference(gas, a, f.mom_x, b, g.mom_x),
        energy: weighted_difference(gas, a, f.energy, b, g.energy),
    }
}

/// Pressure of a state, by way of its one-dimensional state.
pub fn pressure<K: Transverse>(
    k: &K,
    u: Conserved2d<K::Real>,
    dir: Dir,
) -> (p: K::Real)
    ensures
        is_pressure(*k, u, dir, p),
{
    let (c, _v) = pack(k, u, dir);
    k.pressure(c)
}

fn evolved<G: Acoustics>(
    gas: &G,
    weight: G::Real,
    u: Conserved2d<G::Real>,
    d: Conserved2d<G::Real>,
) -> (v: Conserved2d<G::Real>)
    ensures
        each2d(|x: G::Real, y: G::Real, z: G::Real| is_moved(*gas, weight, x, y, z), u, d, v),
{
    Conserved2d {
        rho: moved(gas, weight, u.rho, d.rho),
        mom_r: moved(gas, weight, u.mom_r, d.mom_r),
        mom_x: moved(gas, weight, u.mom_x, d.mom_x),
        energy: moved(gas, weight, u.energy, d.energy),
    }
}

fn mid<G: Acoustics>(gas: &G, a: G::Real, b: G::Real) -> (m: G::Real)
    ensures
        is_mid(*gas, a, b, m),
{
    let s: G::Real = gas.plus(a, b);
    gas.half(s)
}

/// The reconstruction of a cell: its state and its limited slope, both faces
/// evolved by `weight` of the weighted difference of their own fluxes and, if
/// `geometric`, of the geometric source at the cell's own pressure.
pub fn weighted_faces<K: Transverse>(
    k: &K,
    weight: K::Real,
    dir: Dir,
    before: Conserved2d<K::Real>,
    cell: Conserved2d<K::Real>,
    after: Conserved2d<K::Real>,
    metric: Metric<K::Real>,
    geometric: bool,
) -> (faces: Faces<K::Real>)
    ensures
        are_weighted_faces(*k, weight, dir, before, cell, after, metric, geometric, faces),
{
    let s: Conserved2d<K::Real> = Conserved2d {
        rho: limited(k, before.rho, cell.rho, after.rho),
        mom_r: limited(k, before.mom_r, cell.mom_r, after.mom_r),
        mom_x: limited(k, before.mom_x, cell.mom_x, after.mom_x),
        energy: limited(k, before.energy, cell.energy, after.energy),
    };
    let lo: Conserved2d<K::Real> = Conserved2d {
        rho: lower_face(k, cell.rho, s.rho),
        mom_r: lower_face(k, cell.mom_r, s.mom_r),
        mom_x: lower_face(k, cell.mom_x, s.mom_x),
        energy: lower_face(k, cell.energy, s.energy),
    };
    let hi: Conserved2d<K::Real> = Conserved2d {
        rho: upper_face(k, cell.rho, s.rho),
        mom_r: upper_face(k, cell.mom_r, s.mom_r),
        mom_x: upper_face(k, cell.mom_x, s.mom_x),
        energy: upper_face(k, cell.energy, s.energy),
    };
    let fl: Conserved2d<K::Real> = dir_flux(k, lo, dir);
    let fr: Conserved2d<K::Real> = dir_flux(k, hi, dir);
    let bare: Conserved2d<K::Real> = flux_difference(k, metric.lower, fl, metric.upper, fr);
    let d: Conserved2d<K::Real> = if geometric {
        let p: K::Real = pressure(k, cell, dir);
        let source: K::Real = weighted_difference(k, metric.upper, p, metric.lower, p);
        let pushed: Conserved2d<K::Real> = Conserved2d {
            mom_r: k.plus(bare.mom_r, source),
            ..bare
        };
        proof {
            assert(is_geometric_source(*k, metric, p, source));
            assert(is_pushed(*k, dir, metric, cell, bare, pushed));
        }
        pushed
    } else {
        bare
    };
    let left: Conserved2d<K::Real> = evolved(k, weight, lo, d);
    let right: Conserved2d<K::Real> = evolved(k, weight, hi, d);
    let centre: Conserved2d<K::Real> = Conserved2d {
        rho: mid(k, left.rho, right.rho),
        mom_r: mid(k, left.mom_r, right.mom_r),
        mom_x: mid(k, left.mom_x, right.mom_x),
        energy: mid(k, left.energy, right.energy),
    };
    let faces: Faces<K::Real> = Faces { left, right, centre };
    proof {
        assert(is_dir_flux(*k, lo, dir, fl));
        assert(is_dir_flux(*k, hi, dir, fr));
        assert(is_flux_difference(*k, metric.lower, fl, metric.upper, fr, bare));
        assert(are_sides2d(*k, cell, s, lo, hi));
        assert(is_half_step_drive(*k, dir, cell, lo, hi, metric, geometric, d));
        assert(are_evolved2d(*k, weight, lo, hi, d, faces));
    }
    faces
}

/// `d` is the divergence of a cell: the weighted difference of the fluxes
/// through its interfaces, less the geometric source where there is one.
pub open spec fn is_divergence<K: Transverse>(
    k: K,
    dir: Dir,
    flux_lo: Conserved2d<K::Real>,
    flux_hi: Conserved2d<K::Real>,
    metric: Metric<K::Real>,
    geometric: bool,
    centre: Conserved2d<K::Real>,
    d: Conserved2d<K::Real>,
) -> bool {
    exists|bare: Conserved2d<K::Real>|
        {
            &&& #[trigger] is_flux_difference(
                k,
                metric.upper,
                flux_hi,
                metric.lower,
                flux_lo,
                bare,
            )
            &&& if geometric {
                is_relieved(k, dir, metric, centre, bare, d)
            } else {
                d == bare
            }
        }
}

/// `v` is the cell `u` after the fluxes through its interfaces have acted.
pub open spec fn is_weighted_update<K: Transverse>(
    k: K,
    weight: K::Real,
    dir: Dir,
    u: Conserved2d<K::Real>,
    flux_lo: Conserved2d<K::Real>,
    flux_hi: Conserved2d<K::Real>,
    metric: Metric<K::Real>,
    geometric: bool,
    centre: Conserved2d<K::Real>,
    v: Conserved2d<K::Real>,
) -> bool {
    exists|d: Conserved2d<K::Real>|
        {
            &&& #[trigger] is_divergence(
                k,
                dir,
                flux_lo,
                flux_hi,
                metric,
                geometric,
                centre,
                d,
            )
            &&& each2d(
                |x: K::Real, y: K::Real, z: K::Real| is_reduced(k, weight, x, y, z),
                u,
                d,
                v,
            )
        }
}

/// The cell after the fluxes through its two interfaces have acted, less the
/// geometric source at the pressure of `centre` if `geometric`.
pub fn weighted_update<K: Transverse>(
    k: &K,
    weight: K::Real,
    dir: Dir,
    u: Conserved2d<K::Real>,
    flux_lo: Conserved2d<K::Real>,
    flux_hi: Conserved2d<K::Real>,
    metric: Metric<K::Real>,
    geometric: bool,
    centre: Conserved2d<K::Real>,
) -> (v: Conserved2d<K::Real>)
    ensures
        is_weighted_update(
            *k,
            weight,
            dir,
            u,
            flux_lo,
            flux_hi,
            metric,
            geometric,
            centre,
            v,
        ),
{
    let bare: Conserved2d<K::Real> = flux_difference(
        k,
        metric.upper,
        flux_hi,
        metric.lower,
        flux_lo,
    );
    let d: Conserved2d<K::Real> = if geometric {
        let p: K::Real = pressure(k, centre, dir);
        let source: K::Real = weighted_difference(k, metric.upper, p, metric.lower, p);
        let relieved: Conserved2d<K::Real> = Conserved2d {
            mom_r: k.minus(bare.mom_r, source),
            ..bare
        };
        proof {
            assert(is_geometric_source(*k, metric, p, source));
            assert(is_relieved(*k, dir, metric, centre, bare, relieved));
        }
        relieved
    } else {
        bare
    };
    proof {
        assert(is_flux_difference(*k, metric.upper, flux_hi, metric.lower, flux_lo, bare));
        assert(is_divergence(*k, dir, flux_lo, flux_hi, metric, geometric, centre, d));
    }
    Conserved2d {
        rho: reduced(k, weight, u.rho, d.rho),
        mom_r: reduced(k, weight, u.mom_r, d.mom_r),
        mom_x: reduced(k, weight, u.mom_x, d.mom_x),
        energy: reduced(k, weight, u.energy, d.energy),
    }
}

/// Every operation that carries a transverse momentum is a function of its
/// arguments too.
#[verifier::opaque]
pub open spec fn carries_reproducibly<K: Transverse>(k: K) -> bool {
    &&& is_reproducible(k)
    &&& forall|a: K::Real, b: K::Real, x: K::Real, y: K::Real|
        #![trigger call_ensures(K::transverse_velocity, (&k, a, b), x), call_ensures(K::transverse_velocity, (&k, a, b), y)]
        call_ensures(K::transverse_velocity, (&k, a, b), x) && call_ensures(K::transverse_velocity, (&k, a, b), y) ==> x == y
    &&& forall|a: K::Real, b: K::Real, c: K::Real, x: K::Real, y: K::Real|
        #![trigger call_ensures(K::parallel_energy, (&k, a, b, c), x), call_ensures(K::parallel_energy, (&k, a, b, c), y)]
        call_ensures(K::parallel_energy, (&k, a, b, c), x) && call_ensures(K::parallel_energy, (&k, a, b, c), y) ==> x == y
    &&& forall|a: K::Real, b: K::Real, x: K::Real, y: K::Real|
        #![trigger call_ensures(K::carried_momentum, (&k, a, b), x), call_ensures(K::carried_momentum, (&k, a, b), y)]
        call_ensures(K::carried_momentum, (&k, a, b), x) && call_ensures(K::carried_momentum, (&k, a, b), y) ==> x == y
    &&& forall|a: K::Real, b: K::Real, c: K::Real, x: K::Real, y: K::Real|
        #![trigger call_ensures(K::carried_energy, (&k, a, b, c), x), call_ensures(K::carried_energy, (&k, a, b, c), y)]
        call_ensures(K::carried_energy, (&k, a, b, c), x) && call_ensures(K::carried_energy, (&k, a, b, c), y) ==> x == y
    &&& forall|a: K::Real, x: bool, y: bool|
        #![trigger call_ensures(K::flows_up, (&k, a), x), call_ensures(K::flows_up, (&k, a), y)]
        call_ensures(K::flows_up, (&k, a), x) && call_ensures(K::flows_up, (&k, a), y) ==> x == y
}

proof fn lemma_packing_is_one<K: Transverse>(
    k: K,
    u: Conserved2d<K::Real>,
    dir: Dir,
    c: Conserved<K::Real>,
    v: K::Real,
    d: Conserved<K::Real>,
    w: K::Real,
)
    requires
        carries_reproducibly(k),
        is_packed(k, u, dir, c, v),
        is_packed(k, u, dir, d, w),
    ensures
        c == d,
        v == w,
{
    reveal(carries_reproducibly);
    reveal(is_reproducible);
}

proof fn lemma_unpacking_is_one<K: Transverse>(
    k: K,
    c: Conserved<K::Real>,
    v: K::Real,
    dir: Dir,
    f: Conserved2d<K::Real>,
    g: Conserved2d<K::Real>,
)
    requires
        carries_reproducibly(k),
        is_unpacked(k, c, v, dir, f),
        is_unpacked(k, c, v, dir, g),
    ensures
        f == g,
{
    reveal(carries_reproducibly);
    reveal(is_reproducible);
}

proof fn lemma_dir_flux_is_one<K: Transverse>(
    k: K,
    u: Conserved2d<K::Real>,
    dir: Dir,
    f: Conserved2d<K::Real>,
    g: Conserved2d<K::Real>,
)
    requires
        carries_reproducibly(k),
        is_dir_flux(k, u, dir, f),
        is_dir_flux(k, u, dir, g),
    ensures
        f == g,
{
    reveal(carries_reproducibly);
    reveal(is_reproducible);
    let (c, v, a) = choose|c: Conserved<K::Real>, v: K::Real, g: Conserved<K::Real>|
        {
            &&& #[trigger] is_packed(k, u, dir, c, v)
            &&& #[trigger] call_ensures(K::flux, (&k, c), g)
            &&& is_unpacked(k, g, v, dir, f)
        };
    let (d, w, b) = choose|c: Conserved<K::Real>, v: K::Real, h: Conserved<K::Real>|
        {
            &&& #[trigger] is_packed(k, u, dir, c, v)
            &&& #[trigger] call_ensures(K::flux, (&k, c), h)
            &&& is_unpacked(k, h, v, dir, g)
        };
    lemma_packing_is_one(k, u, dir, c, v, d, w);
    assert(a == b);
    lemma_unpacking_is_one(k, a, v, dir, f, g);
}

/// The flux through an interface is a function of the states on its two sides.
pub proof fn lemma_dir_hllc_is_one<K: Transverse>(
    k: K,
    left: Conserved2d<K::Real>,
    right: Conserved2d<K::Real>,
    dir: Dir,
    f: Conserved2d<K::Real>,
    g: Conserved2d<K::Real>,
)
    requires
        carries_reproducibly(k),
        is_dir_hllc(k, left, right, dir, f),
        is_dir_hllc(k, left, right, dir, g),
    ensures
        f == g,
{
    reveal(carries_reproducibly);
    reveal(is_reproducible);
    let (cl, vl, cr, vr, a, up) = choose|
        cl: Conserved<K::Real>,
        vl: K::Real,
        cr: Conserved<K::Real>,
        vr: K::Real,
        a: Conserved<K::Real>,
        up: bool,
    |
        {
            &&& #[trigger] is_packed(k, left, dir, cl, vl)
            &&& #[trigger] is_packed(k, right, dir, cr, vr)
            &&& #[trigger] is_hllc(k, cl, cr, a)
            &&& #[trigger] call_ensures(K::flows_up, (&k, a.rho), up)
            &&& is_unpacked(
                k,
                a,
                if up {
                    vl
                } else {
                    vr
                },
                dir,
                f,
            )
        };
    let (dl, wl, dr, wr, b, up2) = choose|
        cl: Conserved<K::Real>,
        vl: K::Real,
        cr: Conserved<K::Real>,
        vr: K::Real,
        a: Conserved<K::Real>,
        up: bool,
    |
        {
            &&& #[trigger] is_packed(k, left, dir, cl, vl)
            &&& #[trigger] is_packed(k, right, dir, cr, vr)
            &&& #[trigger] is_hllc(k, cl, cr, a)
            &&& #[trigger] call_ensures(K::flows_up, (&k, a.rho), up)
            &&& is_unpacked(
                k,
                a,
                if up {
                    vl
                } else {
                    vr
                },
                dir,
                g,
            )
        };
    lemma_packing_is_one(k, left, dir, cl, vl, dl, wl);
    lemma_packing_is_one(k, right, dir, cr, vr, dr, wr);
    lemma_hllc_is_one(k, cl, cr, a, b);
    assert(up == up2);
    lemma_unpacking_is_one(
        k,
        a,
        if up {
            vl
        } else {
            vr
        },
        dir,
        f,
        g,
    );
}

proof fn lemma_source_is_one<K: Transverse>(
    k: K,
    dir: Dir,
    metric: Metric<K::Real>,
    u: Conserved2d<K::Real>,
    p: K::Real,
    s: K::Real,
    q: K::Real,
    t: K::Real,
)
    requires
        carries_reproducibly(k),
        is_pressure(k, u, dir, p),
        is_geometric_source(k, metric, p, s),
        is_pressure(k, u, dir, q),
        is_geometric_source(k, metric, q, t),
    ensures
        s == t,
{
    reveal(carries_reproducibly);
    reveal(is_reproducible);
    assert(p == q);
}

proof fn lemma_drive_is_one<K: Transverse>(
    k: K,
    dir: Dir,
    cell: Conserved2d<K::Real>,
    lo: Conserved2d<K::Real>,
    hi: Conserved2d<K::Real>,
    metric: Metric<K::Real>,
    geometric: bool,
    d: Conserved2d<K::Real>,
    e: Conserved2d<K::Real>,
)
    requires
        carries_reproducibly(k),
        is_half_step_drive(k, dir, cell, lo, hi, metric, geometric, d),
        is_half_step_drive(k, dir, cell, lo, hi, metric, geometric, e),
    ensures
        d == e,
{
    reveal(carries_reproducibly);
    reveal(is_reproducible);
    let (fl, fr, bare) = choose|
        fl: Conserved2d<K::Real>,
        fr: Conserved2d<K::Real>,
        bare: Conserved2d<K::Real>,
    |
        {
            &&& #[trigger] is_dir_flux(k, lo, dir, fl)
            &&& #[trigger] is_dir_flux(k, hi, dir, fr)
            &&& #[trigger] is_flux_difference(k, metric.lower, fl, metric.upper, fr, bare)
            &&& if geometric {
                is_pushed(k, dir, metric, cell, bare, d)
            } else {
                d == bare
            }
        };
    let (gl, gr, bare2) = choose|
        fl: Conserved2d<K::Real>,
        fr: Conserved2d<K::Real>,
        bare: Conserved2d<K::Real>,
    |
        {
            &&& #[trigger] is_dir_flux(k, lo, dir, fl)
            &&& #[trigger] is_dir_flux(k, hi, dir, fr)
            &&& #[trigger] is_flux_difference(k, metric.lower, fl, metric.upper, fr, bare)
            &&& if geometric {
                is_pushed(k, dir, metric, cell, bare, e)
            } else {
                e == bare
            }
        };
    lemma_dir_flux_is_one(k, lo, dir, fl, gl);
    lemma_dir_flux_is_one(k, hi, dir, fr, gr);
    lemma_differences_are_one(k, metric.lower, fl, metric.upper, fr, bare, bare2);
    if geometric {
        let (p, s) = choose|p: K::Real, s: K::Real|
            {
                &&& #[trigger] is_pressure(k, cell, dir, p)
                &&& #[trigger] is_geometric_source(k, metric, p, s)
                &&& call_ensures(K::plus, (&k, bare.mom_r, s), d.mom_r)
                &&& d == (Conserved2d { mom_r: d.mom_r, ..bare })
            };
        let (q, t) = choose|p: K::Real, s: K::Real|
            {
                &&& #[trigger] is_pressure(k, cell, dir, p)
                &&& #[trigger] is_geometric_source(k, metric, p, s)
                &&& call_ensures(K::plus, (&k, bare2.mom_r, s), e.mom_r)
                &&& e == (Conserved2d { mom_r: e.mom_r, ..bare2 })
            };
        lemma_source_is_one(k, dir, metric, cell, p, s, q, t);
    }
}

proof fn lemma_differences_are_one<K: Acoustics>(
    k: K,
    a: K::Real,
    f: Conserved2d<K::Real>,
    b: K::Real,
    g: Conserved2d<K::Real>,
    d: Conserved2d<K::Real>,
    e: Conserved2d<K::Real>,
)
    requires
        is_reproducible(k),
        is_flux_difference(k, a, f, b, g, d),
        is_flux_difference(k, a, f, b, g, e),
    ensures
        d == e,
{
    reveal(is_reproducible);
}

proof fn lemma_slope2d_is_one<K: Acoustics>(
    k: K,
    a: Conserved2d<K::Real>,
    b: Conserved2d<K::Real>,
    c: Conserved2d<K::Real>,
    s: Conserved2d<K::Real>,
    t: Conserved2d<K::Real>,
)
    requires
        is_reproducible(k),
        is_slope2d(k, a, b, c, s),
        is_slope2d(k, a, b, c, t),
    ensures
        s == t,
{
    reveal(is_reproducible);
}

proof fn lemma_sides_are_one<K: Acoustics>(
    k: K,
    cell: Conserved2d<K::Real>,
    s: Conserved2d<K::Real>,
    lo: Conserved2d<K::Real>,
    hi: Conserved2d<K::Real>,
    l2: Conserved2d<K::Real>,
    h2: Conserved2d<K::Real>,
)
    requires
        is_reproducible(k),
        are_sides2d(k, cell, s, lo, hi),
        are_sides2d(k, cell, s, l2, h2),
    ensures
        lo == l2,
        hi == h2,
{
    reveal(is_reproducible);
}

proof fn lemma_evolution2d_is_one<K: Acoustics>(
    k: K,
    weight: K::Real,
    lo: Conserved2d<K::Real>,
    hi: Conserved2d<K::Real>,
    d: Conserved2d<K::Real>,
    f: Faces<K::Real>,
    g: Faces<K::Real>,
)
    requires
        is_reproducible(k),
        are_evolved2d(k, weight, lo, hi, d, f),
        are_evolved2d(k, weight, lo, hi, d, g),
    ensures
        f == g,
{
    reveal(is_reproducible);
    assert(f.left == g.left);
    assert(f.right == g.right);
    assert(f.centre == g.centre);
}

/// The reconstruction of a cell is a function of the cell, its neighbours and its
/// metric.
pub proof fn lemma_weighted_faces_are_one<K: Transverse>(
    k: K,
    weight: K::Real,
    dir: Dir,
    a: Conserved2d<K::Real>,
    b: Conserved2d<K::Real>,
    c: Conserved2d<K::Real>,
    metric: Metric<K::Real>,
    geometric: bool,
    f: Faces<K::Real>,
    g: Faces<K::Real>,
)
    requires
        carries_reproducibly(k),
        are_weighted_faces(k, weight, dir, a, b, c, metric, geometric, f),
        are_weighted_faces(k, weight, dir, a, b, c, metric, geometric, g),
    ensures
        f == g,
{
    reveal(carries_reproducibly);
    reveal(is_reproducible);
    let (s, lo, hi, d) = choose|
        s: Conserved2d<K::Real>,
        lo: Conserved2d<K::Real>,
        hi: Conserved2d<K::Real>,
        d: Conserved2d<K::Real>,
    |
        {
            &&& is_slope2d(k, a, b, c, s)
            &&& #[trigger] are_sides2d(k, b, s, lo, hi)
            &&& #[trigger] is_half_step_drive(k, dir, b, lo, hi, metric, geometric, d)
            &&& are_evolved2d(k, weight, lo, hi, d, f)
        };
    let (t, l2, h2, e) = choose|
        s: Conserved2d<K::Real>,
        lo: Conserved2d<K::Real>,
        hi: Conserved2d<K::Real>,
        d: Conserved2d<K::Real>,
    |
        {
            &&& is_slope2d(k, a, b, c, s)
            &&& #[trigger] are_sides2d(k, b, s, lo, hi)
            &&& #[trigger] is_half_step_drive(k, dir, b, lo, hi, metric, geometric, d)
            &&& are_evolved2d(k, weight, lo, hi, d, g)
        };
    lemma_slope2d_is_one(k, a, b, c, s, t);
    lemma_sides_are_one(k, b, s, lo, hi, l2, h2);
    lemma_drive_is_one(k, dir, b, lo, hi, metric, geometric, d, e);
    lemma_evolution2d_is_one(k, weight, lo, hi, d, f, g);
}

/// The update of a cell is a function of what it is made from.
pub proof fn lemma_weighted_update_is_one<K: Transverse>(
    k: K,
    weight: K::Real,
    dir: Dir,
    u: Conserved2d<K::Real>,
    flux_lo: Conserved2d<K::Real>,
    flux_hi: Conserved2d<K::Real>,
    metric: Metric<K::Real>,
    geometric: bool,
    centre: Conserved2d<K::Real>,
    v: Conserved2d<K::Real>,
    w: Conserved2d<K::Real>,
)
    requires
        carries_reproducibly(k),
        is_weighted_update(k, weight, dir, u, flux_lo, flux_hi, metric, geometric, centre, v),
        is_weighted_update(k, weight, dir, u, flux_lo, flux_hi, metric, geometric, centre, w),
    ensures
        v == w,
{
    reveal(carries_reproducibly);
    reveal(is_reproducible);
    let d = choose|d: Conserved2d<K::Real>|
        {
            &&& #[trigger] is_divergence(
                k,
                dir,
                flux_lo,
                flux_hi,
                metric,
                geometric,
                centre,
                d,
            )
            &&& each2d(
                |x: K::Real, y: K::Real, z: K::Real| is_reduced(k, weight, x, y, z),
                u,
                d,
                v,
            )
        };
    let e = choose|d: Conserved2d<K::Real>|
        {
            &&& #[trigger] is_divergence(
                k,
                dir,
                flux_lo,
                flux_hi,
                metric,
                geometric,
                centre,
                d,
            )
            &&& each2d(
                |x: K::Real, y: K::Real, z: K::Real| is_reduced(k, weight, x, y, z),
                u,
                d,
                w,
            )
        };
    lemma_divergence_is_one(k, dir, flux_lo, flux_hi, metric, geometric, centre, d, e);
}

proof fn lemma_divergence_is_one<K: Transverse>(
    k: K,
    dir: Dir,
    flux_lo: Conserved2d<K::Real>,
    flux_hi: Conserved2d<K::Real>,
    metric: Metric<K::Real>,
    geometric: bool,
    centre: Conserved2d<K::Real>,
    d: Conserved2d<K::Real>,
    e: Conserved2d<K::Real>,
)
    requires
        carries_reproducibly(k),
        is_divergence(k, dir, flux_lo, flux_hi, metric, geometric, centre, d),
        is_divergence(k, dir, flux_lo, flux_hi, metric, geometric, centre, e),
    ensures
        d == e,
{
    reveal(carries_reproducibly);
    reveal(is_reproducible);
    let (up, low) = (metric.upper, metric.lower);
    let bare = choose|bare: Conserved2d<K::Real>|
        {
            &&& #[trigger] is_flux_difference(k, up, flux_hi, low, flux_lo, bare)
            &&& if geometric {
                is_relieved(k, dir, metric, centre, bare, d)
            } else {
                d == bare
            }
        };
    let bare2 = choose|bare: Conserved2d<K::Real>|
        {
            &&& #[trigger] is_flux_difference(k, up, flux_hi, low, flux_lo, bare)
            &&& if geometric {
                is_relieved(k, dir, metric, centre, bare, e)
            } else {
                e == bare
            }
        };
    lemma_differences_are_one(k, up, flux_hi, low, flux_lo, bare, bare2);
    if geometric {
        let (p, s) = choose|p: K::Real, s: K::Real|
            {
                &&& #[trigger] is_pressure(k, centre, dir, p)
                &&& #[trigger] is_geometric_source(k, metric, p, s)
                &&& call_ensures(K::minus, (&k, bare.mom_r, s), d.mom_r)
                &&& d == (Conserved2d { mom_r: d.mom_r, ..bare })
            };
        let (q, t) = choose|p: K::Real, s: K::Real|
            {
                &&& #[trigger] is_pressure(k, centre, dir, p)
                &&& #[trigger] is_geometric_source(k, metric, p, s)
                &&& call_ensures(K::minus, (&k, bare2.mom_r, s), e.mom_r)
                &&& e == (Conserved2d { mom_r: e.mom_r, ..bare2 })
            };
        lemma_source_is_one(k, dir, metric, centre, p, s, q, t);
    }
}

/// A weighted difference of equals over equal areas is nothing.
proof fn lemma_flat_difference<K: Acoustics>(
    k: K,
    area: K::Real,
    f: Conserved2d<K::Real>,
    d: Conserved2d<K::Real>,
    nothing: K::Real,
)
    requires
        is_reproducible(k),
        cancels(k, nothing),
        is_flux_difference(k, area, f, area, f, d),
    ensures
        d == void2d(nothing),
{
    reveal(is_reproducible);
    assert(is_weighted_difference(k, area, f.rho, area, f.rho, d.rho));
    assert(is_weighted_difference(k, area, f.mom_r, area, f.mom_r, d.mom_r));
    assert(is_weighted_difference(k, area, f.mom_x, area, f.mom_x, d.mom_x));
    assert(is_weighted_difference(k, area, f.energy, area, f.energy, d.energy));
}

/// A state of nothing.
pub open spec fn void2d<R>(nothing: R) -> Conserved2d<R> {
    Conserved2d { rho: nothing, mom_r: nothing, mom_x: nothing, energy: nothing }
}

/// On a flat metric, equal cells have their own state at both faces, with or
/// without the geometric source.
pub proof fn lemma_uniform_weighted_faces<K: Transverse>(
    k: K,
    weight: K::Real,
    dir: Dir,
    c: Conserved2d<K::Real>,
    metric: Metric<K::Real>,
    geometric: bool,
    f: Faces<K::Real>,
    nothing: K::Real,
)
    requires
        carries_reproducibly(k),
        cancels(k, nothing),
        metric.lower == metric.upper,
        are_weighted_faces(k, weight, dir, c, c, c, metric, geometric, f),
    ensures
        f.left == c,
        f.right == c,
{
    reveal(carries_reproducibly);
    reveal(is_reproducible);
    let (s, lo, hi, d) = choose|
        s: Conserved2d<K::Real>,
        lo: Conserved2d<K::Real>,
        hi: Conserved2d<K::Real>,
        d: Conserved2d<K::Real>,
    |
        {
            &&& is_slope2d(k, c, c, c, s)
            &&& #[trigger] are_sides2d(k, c, s, lo, hi)
            &&& #[trigger] is_half_step_drive(k, dir, c, lo, hi, metric, geometric, d)
            &&& are_evolved2d(k, weight, lo, hi, d, f)
        };
    assert(s == void2d(nothing));
    assert(lo == c);
    assert(hi == c);
    let (fl, fr, bare) = choose|
        fl: Conserved2d<K::Real>,
        fr: Conserved2d<K::Real>,
        bare: Conserved2d<K::Real>,
    |
        {
            &&& #[trigger] is_dir_flux(k, lo, dir, fl)
            &&& #[trigger] is_dir_flux(k, hi, dir, fr)
            &&& #[trigger] is_flux_difference(k, metric.lower, fl, metric.upper, fr, bare)
            &&& if geometric {
                is_pushed(k, dir, metric, c, bare, d)
            } else {
                d == bare
            }
        };
    lemma_dir_flux_is_one(k, c, dir, fl, fr);
    lemma_flat_difference(k, metric.lower, fl, bare, nothing);
    if geometric {
        let (p, t) = choose|p: K::Real, t: K::Real|
            {
                &&& #[trigger] is_pressure(k, c, dir, p)
                &&& #[trigger] is_geometric_source(k, metric, p, t)
                &&& call_ensures(K::plus, (&k, bare.mom_r, t), d.mom_r)
                &&& d == (Conserved2d { mom_r: d.mom_r, ..bare })
            };
        assert(t == nothing);
    }
    assert(d == void2d(nothing));
    assert(f.left == c);
    assert(f.right == c);
}

/// What an exact flux difference does to a cell: it takes from every component a
/// share of what the upper interface carries out less what the lower one carries in.
/// The geometric source acts on the radial momentum alone.
pub proof fn lemma_weighted_update_moves<K: Transverse>(
    k: K,
    weight: K::Real,
    dir: Dir,
    u: Conserved2d<K::Real>,
    lo: Conserved2d<K::Real>,
    hi: Conserved2d<K::Real>,
    metric: Metric<K::Real>,
    geometric: bool,
    centre: Conserved2d<K::Real>,
    v: Conserved2d<K::Real>,
    worth: spec_fn(K::Real) -> real,
)
    requires
        is_exact_in(k, worth),
        is_weighted_update(k, weight, dir, u, lo, hi, metric, geometric, centre, v),
    ensures
        worth(v.rho) == worth(u.rho) - worth(weight) * (worth(metric.upper) * worth(hi.rho)
            - worth(metric.lower) * worth(lo.rho)),
        worth(v.mom_x) == worth(u.mom_x) - worth(weight) * (worth(metric.upper) * worth(hi.mom_x)
            - worth(metric.lower) * worth(lo.mom_x)),
        worth(v.energy) == worth(u.energy) - worth(weight) * (worth(metric.upper) * worth(hi.energy)
            - worth(metric.lower) * worth(lo.energy)),
        !geometric ==> worth(v.mom_r) == worth(u.mom_r) - worth(weight) * (worth(metric.upper)
            * worth(hi.mom_r) - worth(metric.lower) * worth(lo.mom_r)),
{
    let d = choose|d: Conserved2d<K::Real>|
        {
            &&& #[trigger] is_divergence(k, dir, lo, hi, metric, geometric, centre, d)
            &&& each2d(
                |x: K::Real, y: K::Real, z: K::Real| is_reduced(k, weight, x, y, z),
                u,
                d,
                v,
            )
        };
    let (up, low) = (metric.upper, metric.lower);
    let bare = choose|bare: Conserved2d<K::Real>|
        {
            &&& #[trigger] is_flux_difference(k, up, hi, low, lo, bare)
            &&& if geometric {
                is_relieved(k, dir, metric, centre, bare, d)
            } else {
                d == bare
            }
        };
    assert(is_weighted_difference(k, up, hi.rho, low, lo.rho, bare.rho));
    assert(is_weighted_difference(k, up, hi.mom_r, low, lo.mom_r, bare.mom_r));
    assert(is_weighted_difference(k, up, hi.mom_x, low, lo.mom_x, bare.mom_x));
    assert(is_weighted_difference(k, up, hi.energy, low, lo.energy, bare.energy));
    assert(is_reduced(k, weight, u.rho, d.rho, v.rho));
    assert(is_reduced(k, weight, u.mom_r, d.mom_r, v.mom_r));
    assert(is_reduced(k, weight, u.mom_x, d.mom_x, v.mom_x));
    assert(is_reduced(k, weight, u.energy, d.energy, v.energy));
}

/// A one-dimensional state with no momentum across the line.
pub open spec fn aligned<R>(nothing: R, u: Conserved<R>) -> Conserved2d<R> {
    Conserved2d { rho: u.rho, mom_r: nothing, mom_x: u.mom, energy: u.energy }
}

/// A flow with no momentum across the line stays so: nothing rides along with it.
pub open spec fn carries_nothing<K: Transverse>(k: K, nothing: K::Real) -> bool {
    &&& forall|a: K::Real, x: K::Real| #[trigger]
        call_ensures(K::transverse_velocity, (&k, nothing, a), x) ==> x == nothing
    &&& forall|a: K::Real, x: K::Real| #[trigger]
        call_ensures(K::parallel_energy, (&k, a, nothing, nothing), x) ==> x == a
    &&& forall|a: K::Real, x: K::Real| #[trigger]
        call_ensures(K::carried_momentum, (&k, a, nothing), x) ==> x == nothing
    &&& forall|a: K::Real, x: K::Real| #[trigger]
        call_ensures(K::carried_energy, (&k, a, nothing, nothing), x) ==> x == a
}

/// `one` changes nothing that it is taken times.
pub open spec fn is_unit<K: Acoustics>(k: K, one: K::Real) -> bool {
    forall|a: K::Real, x: K::Real| #[trigger] call_ensures(K::times, (&k, one, a), x) ==> x == a
}

proof fn lemma_aligned_flux<K: Transverse>(
    k: K,
    u: Conserved<K::Real>,
    f: Conserved2d<K::Real>,
    nothing: K::Real,
) -> (g: Conserved<K::Real>)
    requires
        carries_nothing(k, nothing),
        is_dir_flux(k, aligned(nothing, u), Dir::Axial, f),
    ensures
        call_ensures(K::flux, (&k, u), g),
        f == aligned(nothing, g),
{
    let (c, v, g) = choose|c: Conserved<K::Real>, v: K::Real, g: Conserved<K::Real>|
        {
            &&& #[trigger] is_packed(k, aligned(nothing, u), Dir::Axial, c, v)
            &&& #[trigger] call_ensures(K::flux, (&k, c), g)
            &&& is_unpacked(k, g, v, Dir::Axial, f)
        };
    assert(v == nothing);
    assert(c == u);
    g
}

proof fn lemma_aligned_slope<K: Acoustics, L: Acoustics<Real = K::Real>>(
    k: K,
    l: L,
    a: Conserved<K::Real>,
    b: Conserved<K::Real>,
    c: Conserved<K::Real>,
    s: Conserved2d<K::Real>,
    nothing: K::Real,
) -> (t: Conserved<K::Real>)
    requires
        agrees(k, l),
        cancels(k, nothing),
        is_slope2d(k, aligned(nothing, a), aligned(nothing, b), aligned(nothing, c), s),
    ensures
        is_slope(l, a, b, c, t),
        s == aligned(nothing, t),
{
    reveal(agrees);
    let t = Conserved { rho: s.rho, mom: s.mom_x, energy: s.energy };
    let (b1, a1) = choose|back: K::Real, ahead: K::Real|
        {
            &&& #[trigger] call_ensures(K::minus, (&k, b.rho, a.rho), back)
            &&& #[trigger] call_ensures(K::minus, (&k, c.rho, b.rho), ahead)
            &&& is_minmod(k, back, ahead, s.rho)
        };
    let (b2, a2) = choose|back: K::Real, ahead: K::Real|
        {
            &&& #[trigger] call_ensures(K::minus, (&k, b.mom, a.mom), back)
            &&& #[trigger] call_ensures(K::minus, (&k, c.mom, b.mom), ahead)
            &&& is_minmod(k, back, ahead, s.mom_x)
        };
    let (b3, a3) = choose|back: K::Real, ahead: K::Real|
        {
            &&& #[trigger] call_ensures(K::minus, (&k, b.energy, a.energy), back)
            &&& #[trigger] call_ensures(K::minus, (&k, c.energy, b.energy), ahead)
            &&& is_minmod(k, back, ahead, s.energy)
        };
    let back = Conserved { rho: b1, mom: b2, energy: b3 };
    let ahead = Conserved { rho: a1, mom: a2, energy: a3 };
    assert(is_difference(l, b, a, back));
    assert(is_difference(l, c, b, ahead));
    assert(is_minmod(l, b1, a1, s.rho));
    assert(is_minmod(l, b2, a2, s.mom_x));
    assert(is_minmod(l, b3, a3, s.energy));
    assert(is_limited(k, nothing, nothing, nothing, s.mom_r));
    t
}

/// On interfaces of unit area, the reconstruction of aligned cells is the aligned
/// reconstruction of the cells.
pub proof fn lemma_aligned_faces<K: Transverse, L: Acoustics<Real = K::Real>>(
    k: K,
    l: L,
    weight: K::Real,
    a: Conserved<K::Real>,
    b: Conserved<K::Real>,
    c: Conserved<K::Real>,
    metric: Metric<K::Real>,
    f: Faces<K::Real>,
    nothing: K::Real,
) -> (g: (Conserved<K::Real>, Conserved<K::Real>))
    requires
        agrees(k, l),
        cancels(k, nothing),
        carries_nothing(k, nothing),
        is_unit(k, metric.lower),
        is_unit(k, metric.upper),
        are_weighted_faces(
            k,
            weight,
            Dir::Axial,
            aligned(nothing, a),
            aligned(nothing, b),
            aligned(nothing, c),
            metric,
            false,
            f,
        ),
    ensures
        are_hancock_faces(l, weight, a, b, c, g),
        f.left == aligned(nothing, g.0),
        f.right == aligned(nothing, g.1),
{
    reveal(agrees);
    let (s, lo, hi, d) = choose|
        s: Conserved2d<K::Real>,
        lo: Conserved2d<K::Real>,
        hi: Conserved2d<K::Real>,
        d: Conserved2d<K::Real>,
    |
        {
            &&& is_slope2d(
                k,
                aligned(nothing, a),
                aligned(nothing, b),
                aligned(nothing, c),
                s,
            )
            &&& #[trigger] are_sides2d(k, aligned(nothing, b), s, lo, hi)
            &&& #[trigger] is_half_step_drive(
                k,
                Dir::Axial,
                aligned(nothing, b),
                lo,
                hi,
                metric,
                false,
                d,
            )
            &&& are_evolved2d(k, weight, lo, hi, d, f)
        };
    let t = lemma_aligned_slope(k, l, a, b, c, s, nothing);
    let lo1 = Conserved { rho: lo.rho, mom: lo.mom_x, energy: lo.energy };
    let hi1 = Conserved { rho: hi.rho, mom: hi.mom_x, energy: hi.energy };
    assert(is_lower(k, nothing, nothing, lo.mom_r));
    assert(is_upper(k, nothing, nothing, hi.mom_r));
    assert(lo == aligned(nothing, lo1));
    assert(hi == aligned(nothing, hi1));
    assert(is_lower(l, b.rho, t.rho, lo1.rho) && is_lower(l, b.mom, t.mom, lo1.mom) && is_lower(
        l,
        b.energy,
        t.energy,
        lo1.energy,
    ));
    assert(is_upper(l, b.rho, t.rho, hi1.rho) && is_upper(l, b.mom, t.mom, hi1.mom) && is_upper(
        l,
        b.energy,
        t.energy,
        hi1.energy,
    ));
    assert(are_sides(l, b, t, lo1, hi1));
    let (fl, fr, bare) = choose|
        fl: Conserved2d<K::Real>,
        fr: Conserved2d<K::Real>,
        bare: Conserved2d<K::Real>,
    |
        {
            &&& #[trigger] is_dir_flux(k, lo, Dir::Axial, fl)
            &&& #[trigger] is_dir_flux(k, hi, Dir::Axial, fr)
            &&& #[trigger] is_flux_difference(k, metric.lower, fl, metric.upper, fr, bare)
            &&& d == bare
        };
    let gl = lemma_aligned_flux(k, lo1, fl, nothing);
    let gr = lemma_aligned_flux(k, hi1, fr, nothing);
    let d1 = lemma_aligned_difference(k, l, metric.lower, gl, metric.upper, gr, d, nothing);
    let g0 = Conserved { rho: f.left.rho, mom: f.left.mom_x, energy: f.left.energy };
    let g1 = Conserved { rho: f.right.rho, mom: f.right.mom_x, energy: f.right.energy };
    assert(is_moved(k, weight, nothing, nothing, f.left.mom_r));
    assert(is_moved(k, weight, nothing, nothing, f.right.mom_r));
    assert(is_moved(l, weight, lo1.rho, d1.rho, g0.rho));
    assert(is_moved(l, weight, lo1.mom, d1.mom, g0.mom));
    assert(is_moved(l, weight, lo1.energy, d1.energy, g0.energy));
    assert(is_moved(l, weight, hi1.rho, d1.rho, g1.rho));
    assert(is_moved(l, weight, hi1.mom, d1.mom, g1.mom));
    assert(is_moved(l, weight, hi1.energy, d1.energy, g1.energy));
    assert(call_ensures(L::flux, (&l, lo1), gl));
    assert(call_ensures(L::flux, (&l, hi1), gr));
    assert(are_evolved(l, weight, lo1, hi1, (g0, g1)));
    (g0, g1)
}

proof fn lemma_aligned_difference<K: Acoustics, L: Acoustics<Real = K::Real>>(
    k: K,
    l: L,
    one: K::Real,
    f: Conserved<K::Real>,
    other: K::Real,
    g: Conserved<K::Real>,
    d: Conserved2d<K::Real>,
    nothing: K::Real,
) -> (e: Conserved<K::Real>)
    requires
        agrees(k, l),
        cancels(k, nothing),
        is_unit(k, one),
        is_unit(k, other),
        is_flux_difference(k, one, aligned(nothing, f), other, aligned(nothing, g), d),
    ensures
        is_difference(l, f, g, e),
        d == aligned(nothing, e),
{
    reveal(agrees);
    let e = Conserved { rho: d.rho, mom: d.mom_x, energy: d.energy };
    assert(is_weighted_difference(k, one, f.rho, other, g.rho, d.rho));
    assert(is_weighted_difference(k, one, f.mom, other, g.mom, d.mom_x));
    assert(is_weighted_difference(k, one, f.energy, other, g.energy, d.energy));
    assert(is_weighted_difference(k, one, nothing, other, nothing, d.mom_r));
    e
}

/// The flux between aligned states is the aligned flux between the states.
pub proof fn lemma_aligned_hllc<K: Transverse, L: Acoustics<Real = K::Real>>(
    k: K,
    l: L,
    a: Conserved<K::Real>,
    b: Conserved<K::Real>,
    f: Conserved2d<K::Real>,
    nothing: K::Real,
) -> (g: Conserved<K::Real>)
    requires
        agrees(k, l),
        carries_nothing(k, nothing),
        is_dir_hllc(k, aligned(nothing, a), aligned(nothing, b), Dir::Axial, f),
    ensures
        is_hllc(l, a, b, g),
        f == aligned(nothing, g),
{
    reveal(agrees);
    let (left, right) = (aligned(nothing, a), aligned(nothing, b));
    let (cl, vl, cr, vr, g, up) = choose|
        cl: Conserved<K::Real>,
        vl: K::Real,
        cr: Conserved<K::Real>,
        vr: K::Real,
        g: Conserved<K::Real>,
        up: bool,
    |
        {
            &&& #[trigger] is_packed(k, left, Dir::Axial, cl, vl)
            &&& #[trigger] is_packed(k, right, Dir::Axial, cr, vr)
            &&& #[trigger] is_hllc(k, cl, cr, g)
            &&& #[trigger] call_ensures(K::flows_up, (&k, g.rho), up)
            &&& is_unpacked(
                k,
                g,
                if up {
                    vl
                } else {
                    vr
                },
                Dir::Axial,
                f,
            )
        };
    assert(vl == nothing && vr == nothing);
    assert(cl == a && cr == b);
    lemma_hllc_agrees(k, l, a, b, g);
    g
}

/// On interfaces of unit area, the update of an aligned cell is the aligned update of
/// the cell.
pub proof fn lemma_aligned_update<K: Transverse, L: Acoustics<Real = K::Real>>(
    k: K,
    l: L,
    weight: K::Real,
    u: Conserved<K::Real>,
    lo: Conserved<K::Real>,
    hi: Conserved<K::Real>,
    metric: Metric<K::Real>,
    centre: Conserved2d<K::Real>,
    v: Conserved2d<K::Real>,
    nothing: K::Real,
) -> (w: Conserved<K::Real>)
    requires
        agrees(k, l),
        cancels(k, nothing),
        is_unit(k, metric.lower),
        is_unit(k, metric.upper),
        is_weighted_update(
            k,
            weight,
            Dir::Axial,
            aligned(nothing, u),
            aligned(nothing, lo),
            aligned(nothing, hi),
            metric,
            false,
            centre,
            v,
        ),
    ensures
        is_flux_update(l, weight, u, lo, hi, w),
        v == aligned(nothing, w),
{
    reveal(agrees);
    let (fl, fh) = (aligned(nothing, lo), aligned(nothing, hi));
    let d = choose|d: Conserved2d<K::Real>|
        {
            &&& #[trigger] is_divergence(k, Dir::Axial, fl, fh, metric, false, centre, d)
            &&& each2d(
                |x: K::Real, y: K::Real, z: K::Real| is_reduced(k, weight, x, y, z),
                aligned(nothing, u),
                d,
                v,
            )
        };
    let e = lemma_aligned_difference(k, l, metric.upper, hi, metric.lower, lo, d, nothing);
    let w = Conserved { rho: v.rho, mom: v.mom_x, energy: v.energy };
    assert(is_reduced(k, weight, nothing, nothing, v.mom_r));
    assert(is_reduced(k, weight, u.rho, e.rho, v.rho));
    assert(is_reduced(k, weight, u.mom, e.mom, v.mom_x));
    assert(is_reduced(k, weight, u.energy, e.energy, v.energy));
    assert(is_reduced(l, weight, u.rho, e.rho, w.rho));
    assert(is_reduced(l, weight, u.mom, e.mom, w.mom));
    assert(is_reduced(l, weight, u.energy, e.energy, w.energy));
    w
}

/// The scheme is well balanced: where the radial momentum flux through both
/// interfaces is the pressure of the half-step state, the geometric source
/// cancels it, whatever the two areas are, and the cell's radial momentum stays
/// as it is.
pub proof fn law_pressure_alone_moves_nothing<K: Transverse>(
    k: K,
    weight: K::Real,
    dir: Dir,
    u: Conserved2d<K::Real>,
    flux_lo: Conserved2d<K::Real>,
    flux_hi: Conserved2d<K::Real>,
    metric: Metric<K::Real>,
    centre: Conserved2d<K::Real>,
    v: Conserved2d<K::Real>,
    nothing: K::Real,
)
    requires
        is_weighted_update(
            k,
            weight,
            dir,
            u,
            flux_lo,
            flux_hi,
            metric,
            true,
            centre,
            v,
        ),
        is_reproducible(k),
        cancels(k, nothing),
        forall|p: K::Real| #[trigger]
            is_pressure(k, centre, dir, p) ==> flux_lo.mom_r == p && flux_hi.mom_r == p,
    ensures
        v.mom_r == u.mom_r,
{
    reveal(is_reproducible);
    let d = choose|d: Conserved2d<K::Real>|
        {
            &&& #[trigger] is_divergence(k, dir, flux_lo, flux_hi, metric, true, centre, d)
            &&& each2d(
                |x: K::Real, y: K::Real, z: K::Real| is_reduced(k, weight, x, y, z),
                u,
                d,
                v,
            )
        };
    let bare = choose|bare: Conserved2d<K::Real>|
        {
            &&& #[trigger] is_flux_difference(
                k,
                metric.upper,
                flux_hi,
                metric.lower,
                flux_lo,
                bare,
            )
            &&& is_relieved(k, dir, metric, centre, bare, d)
        };
    let (p, s) = choose|p: K::Real, s: K::Real|
        {
            &&& #[trigger] is_pressure(k, centre, dir, p)
            &&& #[trigger] is_geometric_source(k, metric, p, s)
            &&& call_ensures(K::minus, (&k, bare.mom_r, s), d.mom_r)
            &&& d == (Conserved2d { mom_r: d.mom_r, ..bare })
        };
    assert(is_weighted_difference(
        k,
        metric.upper,
        flux_hi.mom_r,
        metric.lower,
        flux_lo.mom_r,
        bare.mom_r,
    ));
    assert(bare.mom_r == s);
    assert(d.mom_r == nothing);
    assert(is_reduced(k, weight, u.mom_r, d.mom_r, v.mom_r));
}

/// On a flat metric a uniform flux changes nothing: equal fluxes through
/// interfaces of one area leave every component of the cell as it is, with or
/// without the geometric source.
pub proof fn law_uniform_flux_moves_nothing<K: Transverse>(
    k: K,
    weight: K::Real,
    dir: Dir,
    u: Conserved2d<K::Real>,
    flux: Conserved2d<K::Real>,
    metric: Metric<K::Real>,
    geometric: bool,
    centre: Conserved2d<K::Real>,
    v: Conserved2d<K::Real>,
    nothing: K::Real,
)
    requires
        is_weighted_update(k, weight, dir, u, flux, flux, metric, geometric, centre, v),
        is_reproducible(k),
        cancels(k, nothing),
        metric.lower == metric.upper,
    ensures
        v == u,
{
    reveal(is_reproducible);
    let d = choose|d: Conserved2d<K::Real>|
        {
            &&& #[trigger] is_divergence(k, dir, flux, flux, metric, geometric, centre, d)
            &&& each2d(
                |x: K::Real, y: K::Real, z: K::Real| is_reduced(k, weight, x, y, z),
                u,
                d,
                v,
            )
        };
    let area = metric.lower;
    let bare = choose|bare: Conserved2d<K::Real>|
        {
            &&& #[trigger] is_flux_difference(k, area, flux, area, flux, bare)
            &&& if geometric {
                is_relieved(k, dir, metric, centre, bare, d)
            } else {
                d == bare
            }
        };
    lemma_flat_difference(k, area, flux, bare, nothing);
    if geometric {
        let (p, s) = choose|p: K::Real, s: K::Real|
            {
                &&& #[trigger] is_pressure(k, centre, dir, p)
                &&& #[trigger] is_geometric_source(k, metric, p, s)
                &&& call_ensures(K::minus, (&k, bare.mom_r, s), d.mom_r)
                &&& d == (Conserved2d { mom_r: d.mom_r, ..bare })
            };
        assert(s == nothing);
    }
    assert(d == void2d(nothing));
    assert(is_reduced(k, weight, u.rho, d.rho, v.rho));
    assert(is_reduced(k, weight, u.mom_r, d.mom_r, v.mom_r));
    assert(is_reduced(k, weight, u.mom_x, d.mom_x, v.mom_x));
    assert(is_reduced(k, weight, u.energy, d.energy, v.energy));
}

} // verus!

//! What each slab of a path does to a beam.
//!
//! A sample is retarded by the index at its own place, and dimmed by the extinction there.
//! A path acts slab by slab: each step is through the slab whose turn it is, and what
//! watches a run sees each step under its number with the field that it left.
use crate::field::Field;
use crate::grid::Grid;
use crate::lsd::PlasmaColumn;
use crate::medium::Medium;
use crate::optics::Optics;
use crate::plane::Plane;
use crate::propagate::{
    are_observed, is_index, is_passed, is_run, is_slab, is_slab_answer, is_step, is_step_at, March,
};
use crate::transparency::counts_reproducibly;
use vstd::prelude::*;

verus! {

/// A slab's index over the beam, and its extinction where it has one, agree with another
/// slab's at one sample.
pub open spec fn agree_at<K: Optics, M: Medium<K>, N: Medium<K>>(
    k: K,
    m: M,
    z: usize,
    o: N,
    y: usize,
    j: int,
    i: int,
) -> bool {
    &&& forall|b: bool| #[trigger] call_ensures(<M as Medium<K>>::needs_intensity, (&m, &k), b) ==> !b
    &&& forall|b: bool| #[trigger] call_ensures(<N as Medium<K>>::needs_intensity, (&o, &k), b) ==> !b
    &&& forall|a: Plane<K::Real>, b: Plane<K::Real>|
        #![trigger call_ensures(<M as Medium<K>>::index_perturbation, (&m, &k, z), a), call_ensures(<N as Medium<K>>::index_perturbation, (&o, &k, y), b)]
        call_ensures(<M as Medium<K>>::index_perturbation, (&m, &k, z), a) && call_ensures(
            <N as Medium<K>>::index_perturbation,
            (&o, &k, y),
            b,
        ) ==> a@[j][i] == b@[j][i]
    &&& forall|a: Option<Plane<K::Real>>, b: Option<Plane<K::Real>>|
        #![trigger call_ensures(<M as Medium<K>>::extinction, (&m, &k, z), a), call_ensures(<N as Medium<K>>::extinction, (&o, &k, y), b)]
        call_ensures(<M as Medium<K>>::extinction, (&m, &k, z), a) && call_ensures(
            <N as Medium<K>>::extinction,
            (&o, &k, y),
            b,
        ) ==> (a is Some <==> b is Some) && (a is Some ==> (a->0)@[j][i] == (b->0)@[j][i])
}

/// A sample is passed on by the slab at its own place: where two slabs agree at a sample
/// and two fields agree there, they leave the slabs agreeing there, whatever the rest.
pub proof fn law_sample_is_passed_on_at_its_own_place<
    K: Optics,
    M: Medium<K>,
    N: Medium<K>,
>(
    k: K,
    n: nat,
    m: M,
    z: usize,
    o: N,
    y: usize,
    dz: K::Real,
    u: Plane<K::Complex>,
    w: Plane<K::Complex>,
    a: Plane<K::Complex>,
    b: Plane<K::Complex>,
    j: int,
    i: int,
)
    requires
        counts_reproducibly(k),
        agree_at(k, m, z, o, y, j, i),
        is_slab(k, n, m, z, dz, u, Ok(a)),
        is_slab(k, n, o, y, dz, w, Ok(b)),
        0 <= j < n,
        0 <= i < n,
        u@[j][i] == w@[j][i],
    ensures
        a@[j][i] == b@[j][i],
{
    let (dn, loss) = lemma_passed(k, n, m, z, dz, u, a);
    let (dm, gain) = lemma_passed(k, n, o, y, dz, w, b);
    reveal(counts_reproducibly);
    match loss {
        Some(p) => {
            assert(call_ensures(
                K::retard_and_decay,
                (&k, u@[j][i], dn@[j][i], p@[j][i], dz),
                a@[j][i],
            ));
            assert(call_ensures(
                K::retard_and_decay,
                (&k, w@[j][i], dm@[j][i], (gain->0)@[j][i], dz),
                b@[j][i],
            ));
        },
        None => {
            assert(call_ensures(K::retard, (&k, u@[j][i], dn@[j][i], dz), a@[j][i]));
            assert(call_ensures(K::retard, (&k, w@[j][i], dm@[j][i], dz), b@[j][i]));
        },
    }
}

proof fn lemma_passed<K: Optics, M: Medium<K>>(
    k: K,
    n: nat,
    m: M,
    z: usize,
    dz: K::Real,
    u: Plane<K::Complex>,
    v: Plane<K::Complex>,
) -> (r: (Plane<K::Real>, Option<Plane<K::Real>>))
    requires
        is_slab(k, n, m, z, dz, u, Ok(v)),
        forall|b: bool| #[trigger]
            call_ensures(<M as Medium<K>>::needs_intensity, (&m, &k), b) ==> !b,
    ensures
        call_ensures(<M as Medium<K>>::index_perturbation, (&m, &k, z), r.0),
        call_ensures(<M as Medium<K>>::extinction, (&m, &k, z), r.1),
        is_passed(k, n as int, r.0, r.1, dz, u, v),
{
    let (needs, index, loss) = choose|
        needs: bool,
        index: Result<Plane<K::Real>, M::Refusal>,
        loss: Option<Plane<K::Real>>,
    |
        {
            &&& call_ensures(<M as Medium<K>>::needs_intensity, (&m, &k), needs)
            &&& #[trigger] is_index(k, n as int, m, z, dz, u, needs, index)
            &&& #[trigger] is_slab_answer(k, n, m, z, dz, u, needs, index, loss, Ok(v))
        };
    (index->Ok_0, loss)
}

/// A path acts slab by slab: the step after `s` others is through slab `s` beyond the
/// first, from the field that the step before it left.
pub proof fn law_each_step_is_through_its_own_slab<K: Optics, M: Medium<K>>(
    pre: March<K>,
    medium: M,
    dz: K::Real,
    first_slab: usize,
    u: Plane<K::Complex>,
    trace: Seq<(March<K>, Plane<K::Complex>)>,
    s: int,
)
    requires
        is_run(pre, medium, dz, first_slab, u, trace),
        0 <= s < trace.len() - 1,
        first_slab + s <= usize::MAX,
    ensures
        trace[0].1 == u,
        is_step(
            trace[s].0,
            medium,
            (first_slab + s) as usize,
            dz,
            trace[s].1,
            trace[s + 1].0,
            trace[s + 1].1,
            Ok(()),
        ),
{
    assert(is_step_at(medium, dz, first_slab, trace, s));
}

/// What watches a run sees step `s` under its number, with the field after that step.
pub proof fn law_watcher_sees_the_field_after_each_step<
    K: Optics,
    O,
    F: Fn(usize, &Field<K::Real, K::Complex>) -> O,
>(
    on_step: F,
    first_slab: usize,
    grid: Grid<K::Real>,
    wavelength: K::Real,
    trace: Seq<(March<K>, Plane<K::Complex>)>,
    seen: Seq<O>,
    shows: spec_fn(int, Plane<K::Complex>) -> O,
    s: int,
)
    requires
        are_observed(on_step, first_slab, grid, wavelength, trace, seen),
        forall|m: usize, f: Field<K::Real, K::Complex>, o: O| #[trigger]
            call_ensures(on_step, (m, &f), o) ==> o == shows(m as int, f.u),
        0 <= s < seen.len(),
        first_slab + s <= usize::MAX,
    ensures
        seen.len() + 1 == trace.len(),
        seen[s] == shows(first_slab + s, trace[s + 1].1),
{
    assert(call_ensures(
        on_step,
        ((first_slab + s) as usize, &(Field { grid, wavelength, u: trace[s + 1].1 })),
        seen[s],
    ));
}

/// A slab of a plasma column dims by its own coefficient, alike at every sample: nothing
/// where that is nothing, and nothing beyond the last slab.
pub proof fn law_plasma_slab_dims_by_its_own_coefficient<K: Optics>(
    k: K,
    c: PlasmaColumn<K::Real>,
    z: usize,
    r: Option<Plane<K::Real>>,
    worth: spec_fn(K::Real) -> real,
    j: int,
    i: int,
)
    requires
        call_ensures(<PlasmaColumn<K::Real> as Medium<K>>::extinction, (&c, &k, z), r),
        forall|zero: K::Real| #[trigger] call_ensures(K::zero, (&k,), zero) ==> worth(zero) == 0real,
        forall|a: K::Real, b: K::Real, g: bool| #[trigger]
            call_ensures(K::exceeds, (&k, a, b), g) ==> g == (worth(a) > worth(b)),
        0 <= j < c.spec_n(),
        0 <= i < c.spec_n(),
    ensures
        r is Some <==> z < c@.len() && worth(c@[z as int]) > 0real,
        r is Some ==> (r->0)@[j][i] == c@[z as int],
{
}

} // verus!

//! A column of gas under a beam is a function of what goes into it.
//!
//! Where every operation of the arithmetic is a function of its arguments, so is what
//! a column absorbs, how far it steps, and where it arrives.
use crate::euler1d::{
    constant_rate, ghosted, is_advanced, is_cell_update, is_deterministic, is_heated, is_heating,
    is_larger_speed, is_max_speed, is_speed_run, is_stable_dt, is_step, is_step_outcome,
    is_unforced_outcome, is_update, lemma_advance_is_one, lemma_faces_and_fluxes_are_one,
    weighs_reproducibly, Conserved, Domain1d, Primitive, Scheme1d,
};
use crate::lsd::{
    alphas, are_predicted, is_absorbed, is_absorption, is_advance, is_advance_staged, is_advance_to,
    is_alpha_profile, is_alpha_run, is_banking, is_coupled_dt, is_coupled_step, is_deposit,
    is_deposited, is_march, is_march_over, is_march_to, is_marched, is_marched_at, is_max,
    is_max_from_zero, is_max_run, is_next_step, is_pass, is_profile, is_recorded, is_settled_at,
    is_sized, is_sum, is_sum_run, listed, with_record, Absorption, Beam1d, Column1d, LsdError,
    Record, SeededIgnition,
};
use crate::plasmaprops::{
    is_found_between, is_halved, is_inversion, is_lookup, is_plasma, is_search, is_search_end,
    PlasmaProperties, PlasmaScale, N_P, N_T,
};
use crate::riemann::is_reproducible;
use crate::table::{is_located, Place, Table, TableError};
use vstd::prelude::*;

verus! {

/// Looking a property up is a function of the arguments.
#[verifier::opaque]
pub open spec fn tabulates_alike<K: PlasmaScale>(k: K) -> bool {
    &&& forall|t: K::Real, a: K::Real, b: K::Real| #[trigger]
        call_ensures(K::t_position, (&k, t), a) && #[trigger] call_ensures(
            K::t_position,
            (&k, t),
            b,
        ) ==> a == b
    &&& forall|p: K::Real, a: K::Real, b: K::Real| #[trigger]
        call_ensures(K::p_position, (&k, p), a) && #[trigger] call_ensures(
            K::p_position,
            (&k, p),
            b,
        ) ==> a == b
    &&& forall|x: K::Real, last: usize, a: bool, b: bool| #[trigger]
        call_ensures(K::is_on_axis, (&k, x, last), a) && #[trigger] call_ensures(
            K::is_on_axis,
            (&k, x, last),
            b,
        ) ==> a == b
    &&& forall|x: K::Real, a: usize, b: usize| #[trigger]
        call_ensures(K::node, (&k, x), a) && #[trigger] call_ensures(K::node, (&k, x), b) ==> a == b
    &&& forall|x: K::Real, node: usize, a: K::Real, b: K::Real| #[trigger]
        call_ensures(K::past, (&k, x, node), a) && #[trigger] call_ensures(
            K::past,
            (&k, x, node),
            b,
        ) ==> a == b
    &&& forall|
        corners: (K::Real, K::Real, K::Real, K::Real),
        ft: K::Real,
        fp: K::Real,
        a: K::Real,
        b: K::Real,
    | #[trigger]
        call_ensures(K::blend, (&k, corners, ft, fp), a) && #[trigger] call_ensures(
            K::blend,
            (&k, corners, ft, fp),
            b,
        ) ==> a == b
    &&& forall|x: K::Real, a: bool, b: bool| #[trigger]
        call_ensures(K::is_finite, (&k, x), a) && #[trigger] call_ensures(
            K::is_finite,
            (&k, x),
            b,
        ) ==> a == b
    &&& forall|x: K::Real, a: bool, b: bool| #[trigger]
        call_ensures(K::is_positive, (&k, x), a) && #[trigger] call_ensures(
            K::is_positive,
            (&k, x),
            b,
        ) ==> a == b
    &&& forall|x: K::Real, a: K::Real, b: K::Real| #[trigger]
        call_ensures(K::exponential, (&k, x), a) && #[trigger] call_ensures(
            K::exponential,
            (&k, x),
            b,
        ) ==> a == b
    &&& forall|x: K::Real, y: K::Real, a: K::Real, b: K::Real| #[trigger]
        call_ensures(K::ratio, (&k, x, y), a) && #[trigger] call_ensures(
            K::ratio,
            (&k, x, y),
            b,
        ) ==> a == b
    &&& forall|a: K::Real, b: K::Real| #[trigger]
        call_ensures(K::charge, (&k,), a) && #[trigger] call_ensures(K::charge, (&k,), b) ==> a == b
    &&& forall|a: K::Real, b: K::Real| #[trigger]
        call_ensures(K::second_ionization, (&k,), a) && #[trigger] call_ensures(
            K::second_ionization,
            (&k,),
            b,
        ) ==> a == b
    &&& forall|a: K::Real, b: K::Real| #[trigger]
        call_ensures(K::coldest, (&k,), a) && #[trigger] call_ensures(
            K::coldest,
            (&k,),
            b,
        ) ==> a == b
    &&& forall|a: K::Real, b: K::Real| #[trigger]
        call_ensures(K::hottest, (&k,), a) && #[trigger] call_ensures(
            K::hottest,
            (&k,),
            b,
        ) ==> a == b
    &&& forall|x: K::Real, lo: K::Real, hi: K::Real, a: bool, b: bool| #[trigger]
        call_ensures(K::is_between, (&k, x, lo, hi), a) && #[trigger] call_ensures(
            K::is_between,
            (&k, x, lo, hi),
            b,
        ) ==> a == b
    &&& forall|x: K::Real, y: K::Real, a: bool, b: bool| #[trigger]
        call_ensures(K::exceeds, (&k, x, y), a) && #[trigger] call_ensures(
            K::exceeds,
            (&k, x, y),
            b,
        ) ==> a == b
    &&& forall|lo: K::Real, hi: K::Real, a: K::Real, b: K::Real| #[trigger]
        call_ensures(K::midpoint, (&k, lo, hi), a) && #[trigger] call_ensures(
            K::midpoint,
            (&k, lo, hi),
            b,
        ) ==> a == b
}

/// The gas dynamics of a cell are a function of the arguments.
#[verifier::opaque]
pub open spec fn flows_alike<K: Scheme1d>(k: K) -> bool {
    &&& forall|w: Primitive<K::Real>, a: Conserved<K::Real>, b: Conserved<K::Real>| #[trigger]
        call_ensures(K::to_conserved, (&k, w), a) && #[trigger] call_ensures(
            K::to_conserved,
            (&k, w),
            b,
        ) ==> a == b
    &&& forall|u: Conserved<K::Real>, a: Primitive<K::Real>, b: Primitive<K::Real>| #[trigger]
        call_ensures(K::to_primitive, (&k, u), a) && #[trigger] call_ensures(
            K::to_primitive,
            (&k, u),
            b,
        ) ==> a == b
    &&& forall|x: K::Real, a: bool, b: bool| #[trigger]
        call_ensures(K::is_positive, (&k, x), a) && #[trigger] call_ensures(
            K::is_positive,
            (&k, x),
            b,
        ) ==> a == b
    &&& forall|a: K::Real, b: K::Real| #[trigger]
        call_ensures(K::default_cfl, (&k,), a) && #[trigger] call_ensures(
            K::default_cfl,
            (&k,),
            b,
        ) ==> a == b
    &&& forall|u: Conserved<K::Real>, a: K::Real, b: K::Real| #[trigger]
        call_ensures(K::wave_speed, (&k, u), a) && #[trigger] call_ensures(
            K::wave_speed,
            (&k, u),
            b,
        ) ==> a == b
    &&& forall|cfl: K::Real, speed: K::Real, a: K::Real, b: K::Real| #[trigger]
        call_ensures(K::courant_step, (&k, cfl, speed), a) && #[trigger] call_ensures(
            K::courant_step,
            (&k, cfl, speed),
            b,
        ) ==> a == b
    &&& forall|t: K::Real, t_end: K::Real, a: bool, b: bool| #[trigger]
        call_ensures(K::is_before, (&k, t, t_end), a) && #[trigger] call_ensures(
            K::is_before,
            (&k, t, t_end),
            b,
        ) ==> a == b
    &&& forall|dt: K::Real, t: K::Real, t_end: K::Real, a: K::Real, b: K::Real| #[trigger]
        call_ensures(K::clip, (&k, dt, t, t_end), a) && #[trigger] call_ensures(
            K::clip,
            (&k, dt, t, t_end),
            b,
        ) ==> a == b
    &&& forall|i: usize, a: K::Real, b: K::Real| #[trigger]
        call_ensures(K::x_centre, (&k, i), a) && #[trigger] call_ensures(
            K::x_centre,
            (&k, i),
            b,
        ) ==> a == b
    &&& forall|dt: K::Real, a: K::Real, b: K::Real| #[trigger]
        call_ensures(K::half_weight, (&k, dt), a) && #[trigger] call_ensures(
            K::half_weight,
            (&k, dt),
            b,
        ) ==> a == b
    &&& forall|dt: K::Real, a: K::Real, b: K::Real| #[trigger]
        call_ensures(K::weight, (&k, dt), a) && #[trigger] call_ensures(
            K::weight,
            (&k, dt),
            b,
        ) ==> a == b
    &&& forall|dt: K::Real, energy: K::Real, rate: K::Real, a: K::Real, b: K::Real| #[trigger]
        call_ensures(K::heat, (&k, dt, energy, rate), a) && #[trigger] call_ensures(
            K::heat,
            (&k, dt, energy, rate),
            b,
        ) ==> a == b
    &&& forall|sum: K::Real, a: K::Real, b: K::Real| #[trigger]
        call_ensures(K::integral, (&k, sum), a) && #[trigger] call_ensures(
            K::integral,
            (&k, sum),
            b,
        ) ==> a == b
}

/// What a beam does to a cell is a function of the arguments.
#[verifier::opaque]
pub open spec fn shines_alike<K: Beam1d>(k: K) -> bool {
    &&& forall|a: K::Axes, b: K::Axes| #[trigger]
        call_ensures(K::axes, (&k,), a) && #[trigger] call_ensures(K::axes, (&k,), b) ==> a == b
    &&& forall|w: Primitive<K::Real>, a: K::Real, b: K::Real| #[trigger]
        call_ensures(K::internal_energy, (&k, w), a) && #[trigger] call_ensures(
            K::internal_energy,
            (&k, w),
            b,
        ) ==> a == b
    &&& forall|x: K::Real, y: K::Real, a: bool, b: bool| #[trigger]
        call_ensures(K::exceeds, (&k, x, y), a) && #[trigger] call_ensures(
            K::exceeds,
            (&k, x, y),
            b,
        ) ==> a == b
    &&& forall|x: K::Real, y: K::Real, a: bool, b: bool| #[trigger]
        call_ensures(K::reaches, (&k, x, y), a) && #[trigger] call_ensures(
            K::reaches,
            (&k, x, y),
            b,
        ) ==> a == b
    &&& forall|a: K::Real, b: K::Real| #[trigger]
        call_ensures(K::one, (&k,), a) && #[trigger] call_ensures(K::one, (&k,), b) ==> a == b
    &&& forall|a: K::Real, b: K::Real| #[trigger]
        call_ensures(K::lowest, (&k,), a) && #[trigger] call_ensures(K::lowest, (&k,), b) ==> a == b
    &&& forall|x: K::Real, y: K::Real, a: K::Real, b: K::Real| #[trigger]
        call_ensures(K::ratio, (&k, x, y), a) && #[trigger] call_ensures(
            K::ratio,
            (&k, x, y),
            b,
        ) ==> a == b
    &&& forall|
        wavelength: K::Real,
        gaunt: K::Real,
        z: K::Real,
        n_e: K::Real,
        n_i: K::Real,
        t: K::Real,
        a: K::Real,
        b: K::Real,
    | #[trigger]
        call_ensures(K::free_free, (&k, wavelength, gaunt, z, n_e, n_i, t), a) && #[trigger] call_ensures(
            K::free_free,
            (&k, wavelength, gaunt, z, n_e, n_i, t),
            b,
        ) ==> a == b
    &&& forall|intensity: K::Real, alpha: K::Real, a: K::Real, b: K::Real| #[trigger]
        call_ensures(K::attenuate, (&k, intensity, alpha), a) && #[trigger] call_ensures(
            K::attenuate,
            (&k, intensity, alpha),
            b,
        ) ==> a == b
    &&& forall|entering: K::Real, leaving: K::Real, a: K::Real, b: K::Real| #[trigger]
        call_ensures(K::absorbed, (&k, entering, leaving), a) && #[trigger] call_ensures(
            K::absorbed,
            (&k, entering, leaving),
            b,
        ) ==> a == b
    &&& forall|total: K::Real, dt: K::Real, sum: K::Real, a: K::Real, b: K::Real| #[trigger]
        call_ensures(K::bank, (&k, total, dt, sum), a) && #[trigger] call_ensures(
            K::bank,
            (&k, total, dt, sum),
            b,
        ) ==> a == b
    &&& forall|
        energy: K::Real,
        initial: K::Real,
        deposited: K::Real,
        a: K::Real,
        b: K::Real,
    | #[trigger]
        call_ensures(K::budget_gap, (&k, energy, initial, deposited), a) && #[trigger] call_ensures(
            K::budget_gap,
            (&k, energy, initial, deposited),
            b,
        ) ==> a == b
    &&& forall|w: Primitive<K::Real>, q: K::Real, dt: K::Real, a: K::Real, b: K::Real| #[trigger]
        call_ensures(K::predicted_speed, (&k, w, q, dt), a) && #[trigger] call_ensures(
            K::predicted_speed,
            (&k, w, q, dt),
            b,
        ) ==> a == b
    &&& forall|next: K::Real, dt: K::Real, a: bool, b: bool| #[trigger]
        call_ensures(K::is_settled, (&k, next, dt), a) && #[trigger] call_ensures(
            K::is_settled,
            (&k, next, dt),
            b,
        ) ==> a == b
    &&& forall|dt: K::Real, a: K::Real, b: K::Real| #[trigger]
        call_ensures(K::shave, (&k, dt), a) && #[trigger] call_ensures(
            K::shave,
            (&k, dt),
            b,
        ) ==> a == b
    &&& forall|p_max: K::Real, ambient: Primitive<K::Real>, a: bool, b: bool| #[trigger]
        call_ensures(K::is_front, (&k, p_max, ambient), a) && #[trigger] call_ensures(
            K::is_front,
            (&k, p_max, ambient),
            b,
        ) ==> a == b
    &&& forall|p_max: K::Real, ambient: Primitive<K::Real>, a: K::Real, b: K::Real| #[trigger]
        call_ensures(K::half_rise, (&k, p_max, ambient), a) && #[trigger] call_ensures(
            K::half_rise,
            (&k, p_max, ambient),
            b,
        ) ==> a == b
    &&& forall|
        level: K::Real,
        before: Primitive<K::Real>,
        at: Primitive<K::Real>,
        i: usize,
        a: K::Real,
        b: K::Real,
    | #[trigger]
        call_ensures(K::crossing, (&k, level, before, at, i), a) && #[trigger] call_ensures(
            K::crossing,
            (&k, level, before, at, i),
            b,
        ) ==> a == b
    &&& forall|w: Primitive<K::Real>, ambient: Primitive<K::Real>, a: bool, b: bool| #[trigger]
        call_ensures(K::is_quiet, (&k, w, ambient), a) && #[trigger] call_ensures(
            K::is_quiet,
            (&k, w, ambient),
            b,
        ) ==> a == b
    &&& forall|seed: SeededIgnition<K::Real>, x: K::Real, a: bool, b: bool| #[trigger]
        call_ensures(K::is_in_seed, (&k, seed, x), a) && #[trigger] call_ensures(
            K::is_in_seed,
            (&k, seed, x),
            b,
        ) ==> a == b
    &&& forall|alpha: K::Real, a: bool, b: bool| #[trigger]
        call_ensures(K::absorbs, (&k, alpha), a) && #[trigger] call_ensures(
            K::absorbs,
            (&k, alpha),
            b,
        ) ==> a == b
    &&& forall|alpha: K::Real, largest: K::Real, a: bool, b: bool| #[trigger]
        call_ensures(K::is_strong_absorber, (&k, alpha, largest), a) && #[trigger] call_ensures(
            K::is_strong_absorber,
            (&k, alpha, largest),
            b,
        ) ==> a == b
}

/// Every operation of a column is a function of its arguments.
pub open spec fn is_repeatable_column<K: Beam1d>(k: K) -> bool {
    &&& is_reproducible(k)
    &&& flows_alike(k)
    &&& shines_alike(k)
    &&& forall|axes: K::Axes| #[trigger]
        call_ensures(K::axes, (&k,), axes) ==> tabulates_alike(axes)
}

/// Two tables hold the same numbers.
pub open spec fn is_same_table<R>(a: Table<R>, b: Table<R>) -> bool {
    &&& a.spec_n_t() == b.spec_n_t()
    &&& a.spec_n_p() == b.spec_n_p()
    &&& a.stored() == b.stored()
}

/// Two models of absorption are the same, number by number.
pub open spec fn is_same_absorption<R>(a: Absorption<R>, b: Absorption<R>) -> bool {
    match (a, b) {
        (
            Absorption::GreyThreshold { alpha: x, e_ignite: e },
            Absorption::GreyThreshold { alpha: y, e_ignite: f },
        ) => x == y && e == f,
        (
            Absorption::InverseBremsstrahlung { wavelength: w, gaunt: g, table: s, ceiling: c },
            Absorption::InverseBremsstrahlung { wavelength: x, gaunt: h, table: t, ceiling: d },
        ) => w == x && g == h && is_same_table(s@, t@) && c == d,
        _ => false,
    }
}

proof fn lemma_place_is_one<A: PlasmaScale>(
    axes: A,
    n_t: int,
    n_p: int,
    t: A::Real,
    p: A::Real,
    a: Result<Place<A::Real>, TableError>,
    b: Result<Place<A::Real>, TableError>,
)
    requires
        tabulates_alike(axes),
        is_located(axes, n_t, n_p, t, p, a),
        is_located(axes, n_t, n_p, t, p, b),
    ensures
        a == b,
{
    reveal(tabulates_alike);
}

proof fn lemma_lookup_is_one<A: PlasmaScale>(
    axes: A,
    x: Table<A::Real>,
    y: Table<A::Real>,
    t: A::Real,
    p: A::Real,
    a: Result<PlasmaProperties<A::Real>, TableError>,
    b: Result<PlasmaProperties<A::Real>, TableError>,
)
    requires
        tabulates_alike(axes),
        is_same_table(x, y),
        is_lookup(axes, x, t, p, a),
        is_lookup(axes, y, t, p, b),
    ensures
        a == b,
{
    assert forall|
        c: Result<Place<A::Real>, TableError>,
        d: Result<Place<A::Real>, TableError>,
    | #[trigger]
        is_located(axes, N_T as int, N_P as int, t, p, c) && #[trigger] is_located(
            axes,
            N_T as int,
            N_P as int,
            t,
            p,
            d,
        ) implies c == d by {
        lemma_place_is_one(axes, N_T as int, N_P as int, t, p, c, d);
    }
    reveal(tabulates_alike);
    if let Ok(u) = a {
        let c = choose|c: Place<A::Real>| #[trigger]
            is_located(axes, N_T as int, N_P as int, t, p, Ok(c)) && is_plasma(
                axes,
                x,
                c,
                u,
            );
        if let Ok(v) = b {
            let d = choose|c: Place<A::Real>| #[trigger]
                is_located(axes, N_T as int, N_P as int, t, p, Ok(c))
                    && is_plasma(axes, y, c, v);
            assert(c == d);
            assert(u == v);
        }
    }
}

proof fn lemma_search_is_one<A: PlasmaScale>(
    axes: A,
    x: Table<A::Real>,
    y: Table<A::Real>,
    rho: A::Real,
    p: A::Real,
    whole: (A::Real, A::Real),
    a: Seq<(A::Real, A::Real)>,
    b: Seq<(A::Real, A::Real)>,
    i: int,
)
    requires
        tabulates_alike(axes),
        is_same_table(x, y),
        is_search(axes, x, rho, p, whole, a),
        is_search(axes, y, rho, p, whole, b),
        0 <= i < a.len(),
        i < b.len(),
    ensures
        a[i] == b[i],
    decreases i,
{
    if i > 0 {
        lemma_search_is_one(axes, x, y, rho, p, whole, a, b, i - 1);
        assert(is_halved(axes, x, rho, p, a[i - 1], a[i - 1 + 1]));
        assert(is_halved(axes, y, rho, p, b[i - 1], b[i - 1 + 1]));
        assert forall|
            t: A::Real,
            u: Result<PlasmaProperties<A::Real>, TableError>,
            v: Result<PlasmaProperties<A::Real>, TableError>,
        | #[trigger]
            is_lookup(axes, x, t, p, u) && #[trigger] is_lookup(axes, y, t, p, v) implies u == v by {
            lemma_lookup_is_one(axes, x, y, t, p, u, v);
        }
        reveal(tabulates_alike);
    }
}

/// A search that was cut short is no shorter than another of the same.
proof fn lemma_search_is_cut_at_one<A: PlasmaScale>(
    axes: A,
    x: Table<A::Real>,
    y: Table<A::Real>,
    rho: A::Real,
    p: A::Real,
    whole: (A::Real, A::Real),
    a: Seq<(A::Real, A::Real)>,
    b: Seq<(A::Real, A::Real)>,
    e: TableError,
)
    requires
        tabulates_alike(axes),
        is_same_table(x, y),
        is_search(axes, x, rho, p, whole, a),
        is_search(axes, y, rho, p, whole, b),
        is_search_end(axes, x, p, a, Err(e)),
    ensures
        a.len() >= b.len(),
{
    if a.len() < b.len() {
        let i = a.len() - 1;
        lemma_search_is_one(axes, x, y, rho, p, whole, a, b, i);
        assert(is_halved(axes, y, rho, p, b[i], b[i + 1]));
        let (mid, found) = choose|mid: A::Real, found: PlasmaProperties<A::Real>|
            {
                &&& #[trigger] call_ensures(A::midpoint, (&axes, b[i].0, b[i].1), mid)
                &&& #[trigger] is_lookup(axes, y, mid, p, Ok(found))
            };
        let other = choose|mid: A::Real|
            {
                &&& #[trigger] call_ensures(A::midpoint, (&axes, a.last().0, a.last().1), mid)
                &&& is_lookup(axes, x, mid, p, Err(e))
            };
        assert(mid == other) by {
            reveal(tabulates_alike);
        }
        lemma_lookup_is_one(axes, x, y, mid, p, Err(e), Ok(found));
    }
}

proof fn lemma_search_ends_as_one<A: PlasmaScale>(
    axes: A,
    x: Table<A::Real>,
    y: Table<A::Real>,
    rho: A::Real,
    p: A::Real,
    whole: (A::Real, A::Real),
    a: Seq<(A::Real, A::Real)>,
    b: Seq<(A::Real, A::Real)>,
    r: Result<A::Real, TableError>,
    s: Result<A::Real, TableError>,
)
    requires
        tabulates_alike(axes),
        is_same_table(x, y),
        is_search(axes, x, rho, p, whole, a),
        is_search(axes, y, rho, p, whole, b),
        is_search_end(axes, x, p, a, r),
        is_search_end(axes, y, p, b, s),
    ensures
        r == s,
{
    if let Err(e) = r {
        lemma_search_is_cut_at_one(axes, x, y, rho, p, whole, a, b, e);
    }
    if let Err(e) = s {
        lemma_search_is_cut_at_one(axes, y, x, rho, p, whole, b, a, e);
    }
    assert(a.len() == b.len());
    lemma_search_is_one(axes, x, y, rho, p, whole, a, b, a.len() - 1);
    assert forall|
        t: A::Real,
        u: Result<PlasmaProperties<A::Real>, TableError>,
        v: Result<PlasmaProperties<A::Real>, TableError>,
    | #[trigger] is_lookup(axes, x, t, p, u) && #[trigger] is_lookup(axes, y, t, p, v) implies u
        == v by {
        lemma_lookup_is_one(axes, x, y, t, p, u, v);
    }
    reveal(tabulates_alike);
}

proof fn lemma_inversion_is_one<A: PlasmaScale>(
    axes: A,
    x: Table<A::Real>,
    y: Table<A::Real>,
    rho: A::Real,
    p: A::Real,
    r: Result<A::Real, TableError>,
    s: Result<A::Real, TableError>,
)
    requires
        tabulates_alike(axes),
        is_same_table(x, y),
        is_inversion(axes, x, rho, p, r),
        is_inversion(axes, y, rho, p, s),
    ensures
        r == s,
{
    assert forall|
        t: A::Real,
        u: Result<PlasmaProperties<A::Real>, TableError>,
        v: Result<PlasmaProperties<A::Real>, TableError>,
    | #[trigger] is_lookup(axes, x, t, p, u) && #[trigger] is_lookup(axes, y, t, p, v) implies u
        == v by {
        lemma_lookup_is_one(axes, x, y, t, p, u, v);
    }
    assert forall|
        whole: (A::Real, A::Real),
        cold: PlasmaProperties<A::Real>,
        hot: PlasmaProperties<A::Real>,
    |
        #![trigger is_found_between(axes, x, rho, p, whole, cold, hot, r), is_found_between(axes, y, rho, p, whole, cold, hot, s)]
        is_found_between(axes, x, rho, p, whole, cold, hot, r) && is_found_between(
            axes,
            y,
            rho,
            p,
            whole,
            cold,
            hot,
            s,
        ) implies r == s by {
        assert forall|a: Seq<(A::Real, A::Real)>, b: Seq<(A::Real, A::Real)>|
            #![trigger is_search(axes, x, rho, p, whole, a), is_search(axes, y, rho, p, whole, b)]
            is_search(axes, x, rho, p, whole, a) && is_search(axes, y, rho, p, whole, b)
                && is_search_end(axes, x, p, a, r) && is_search_end(axes, y, p, b, s) implies r
            == s by {
            lemma_search_ends_as_one(axes, x, y, rho, p, whole, a, b, r, s);
        }
        reveal(tabulates_alike);
    }
    reveal(tabulates_alike);
}

/// What a state absorbs is a function of the state and of the model.
pub(crate) proof fn lemma_absorption_is_one<K: Beam1d>(
    k: K,
    a: Absorption<K::Real>,
    b: Absorption<K::Real>,
    w: Primitive<K::Real>,
    r: Result<(K::Real, Option<K::Real>), LsdError<K::Real>>,
    s: Result<(K::Real, Option<K::Real>), LsdError<K::Real>>,
)
    requires
        is_repeatable_column(k),
        is_same_absorption(a, b),
        is_absorption(k, a, w, r),
        is_absorption(k, b, w, s),
    ensures
        r == s,
{
    reveal(shines_alike);
    reveal(is_reproducible);
    match (a, b) {
        (
            Absorption::InverseBremsstrahlung { wavelength, gaunt, table: x, ceiling },
            Absorption::InverseBremsstrahlung { table: y, .. },
        ) => {
            let axes = choose|axes: K::Axes| #[trigger] call_ensures(K::axes, (&k,), axes);
            assert forall|
                u: Result<K::Real, TableError>,
                v: Result<K::Real, TableError>,
            | #[trigger]
                is_inversion(axes, x@, w.rho, w.p, u) && #[trigger] is_inversion(
                    axes,
                    y@,
                    w.rho,
                    w.p,
                    v,
                ) implies u == v by {
                lemma_inversion_is_one(axes, x@, y@, w.rho, w.p, u, v);
            }
            assert forall|
                t: K::Real,
                u: Result<PlasmaProperties<K::Real>, TableError>,
                v: Result<PlasmaProperties<K::Real>, TableError>,
            | #[trigger]
                is_lookup(axes, x@, t, w.p, u) && #[trigger] is_lookup(
                    axes,
                    y@,
                    t,
                    w.p,
                    v,
                ) implies u == v by {
                lemma_lookup_is_one(axes, x@, y@, t, w.p, u, v);
            }
            reveal(tabulates_alike);
        },
        _ => {},
    }
}

proof fn lemma_alpha_run_is_one<K: Beam1d>(
    c: Column1d<K>,
    v: Seq<Primitive<K::Real>>,
    a: Seq<(K::Real, Option<K::Real>)>,
    r: Seq<Record<K::Real>>,
    w: Seq<Primitive<K::Real>>,
    b: Seq<(K::Real, Option<K::Real>)>,
    s: Seq<Record<K::Real>>,
    i: int,
)
    requires
        is_repeatable_column(c.hydro.scheme),
        is_alpha_run(c, v, a, r),
        is_alpha_run(c, w, b, s),
        0 <= i <= a.len(),
        i <= b.len(),
    ensures
        v == w,
        r[i] == s[i],
        i > 0 ==> a[i - 1] == b[i - 1],
    decreases i,
{
    let k = c.hydro.scheme;
    assert(v =~= w) by {
        reveal(flows_alike);
    }
    if i > 0 {
        lemma_alpha_run_is_one(c, v, a, r, w, b, s, i - 1);
        let j = i - 1;
        assert(is_absorption(k, c.absorption, v[j], Ok(a[j])));
        assert(is_absorption(k, c.absorption, v[j], Ok(b[j])));
        lemma_absorption_is_one(k, c.absorption, c.absorption, v[j], Ok(a[j]), Ok(b[j]));
        assert(is_recorded(k, r[j], a[j].1, r[j + 1]));
        assert(is_recorded(k, s[j], b[j].1, s[j + 1]));
        assert(r[i] == s[i]) by {
            reveal(is_reproducible);
            reveal(shines_alike);
            reveal(tabulates_alike);
        }
    }
}

/// The absorption profile of a column is a function of the column.
pub(crate) proof fn lemma_alpha_profile_is_one<K: Beam1d>(
    pre: Column1d<K>,
    p: Column1d<K>,
    q: Column1d<K>,
    a: Seq<K::Real>,
    b: Seq<K::Real>,
)
    requires
        is_repeatable_column(pre.hydro.scheme),
        is_alpha_profile(pre, p, Ok(a)),
        is_alpha_profile(pre, q, Ok(b)),
    ensures
        p == q,
        a == b,
{
    let (v, x, r) = choose|
        states: Seq<Primitive<K::Real>>,
        samples: Seq<(K::Real, Option<K::Real>)>,
        records: Seq<Record<K::Real>>,
    |
        {
            &&& #[trigger] is_alpha_run(pre, states, samples, records)
            &&& p == with_record(pre, records.last())
            &&& samples.len() == states.len() && a == alphas(samples)
        };
    let (w, y, s) = choose|
        states: Seq<Primitive<K::Real>>,
        samples: Seq<(K::Real, Option<K::Real>)>,
        records: Seq<Record<K::Real>>,
    |
        {
            &&& #[trigger] is_alpha_run(pre, states, samples, records)
            &&& q == with_record(pre, records.last())
            &&& samples.len() == states.len() && b == alphas(samples)
        };
    lemma_alpha_run_is_one(pre, v, x, r, w, y, s, x.len() as int);
    assert forall|i: int| 0 <= i < a.len() implies a[i] == b[i] by {
        lemma_alpha_run_is_one(pre, v, x, r, w, y, s, i + 1);
    }
    assert(a =~= b);
}

proof fn lemma_march_is_one<K: Beam1d>(
    k: K,
    incident: K::Real,
    alpha: Seq<K::Real>,
    a: Seq<K::Real>,
    b: Seq<K::Real>,
    i: int,
)
    requires
        shines_alike(k),
        is_march(k, incident, alpha, a),
        is_march(k, incident, alpha, b),
        0 <= i <= alpha.len(),
    ensures
        a[i] == b[i],
    decreases i,
{
    if i > 0 {
        lemma_march_is_one(k, incident, alpha, a, b, i - 1);
        assert(alpha[i - 1] == alpha[i - 1]);
        assert(call_ensures(K::attenuate, (&k, a[i - 1], alpha[i - 1]), a[i - 1 + 1]));
        assert(call_ensures(K::attenuate, (&k, b[i - 1], alpha[i - 1]), b[i - 1 + 1]));
        reveal(shines_alike);
    }
}

/// What a march absorbs is a function of what enters and of the absorption.
pub(crate) proof fn lemma_absorbed_is_one<K: Beam1d>(
    k: K,
    incident: K::Real,
    alpha: Seq<K::Real>,
    a: Seq<K::Real>,
    b: Seq<K::Real>,
    p: Seq<K::Real>,
    q: Seq<K::Real>,
)
    requires
        shines_alike(k),
        is_march(k, incident, alpha, a),
        is_march(k, incident, alpha, b),
        is_absorbed(k, a, p),
        is_absorbed(k, b, q),
    ensures
        a == b,
        p == q,
{
    assert forall|i: int| 0 <= i < a.len() implies a[i] == b[i] by {
        lemma_march_is_one(k, incident, alpha, a, b, i);
    }
    assert(a =~= b);
    assert(p =~= q) by {
        reveal(shines_alike);
    }
}

pub(crate) proof fn lemma_profile_is_one<K: Beam1d>(
    pre: Column1d<K>,
    p: Column1d<K>,
    q: Column1d<K>,
    a: Seq<K::Real>,
    b: Seq<K::Real>,
)
    requires
        is_repeatable_column(pre.hydro.scheme),
        is_profile(pre, p, a),
        is_profile(pre, q, b),
    ensures
        p == q,
        a == b,
{
    let k = pre.hydro.scheme;
    let x = choose|alpha: Seq<K::Real>| #[trigger]
        is_march(k, pre.incident, alpha, a) && is_alpha_profile(pre, p, Ok(alpha));
    let y = choose|alpha: Seq<K::Real>| #[trigger]
        is_march(k, pre.incident, alpha, b) && is_alpha_profile(pre, q, Ok(alpha));
    lemma_alpha_profile_is_one(pre, p, q, x, y);
    assert forall|i: int| 0 <= i < a.len() implies a[i] == b[i] by {
        lemma_march_is_one(k, pre.incident, x, a, b, i);
    }
    assert(a =~= b);
}

proof fn lemma_deposition_is_one<K: Beam1d>(
    pre: Column1d<K>,
    p: Column1d<K>,
    q: Column1d<K>,
    a: Seq<K::Real>,
    b: Seq<K::Real>,
)
    requires
        is_repeatable_column(pre.hydro.scheme),
        is_deposited(pre, p, a),
        is_deposited(pre, q, b),
    ensures
        p == q,
        a == b,
{
    let k = pre.hydro.scheme;
    let x = choose|profile: Seq<K::Real>| #[trigger]
        is_absorbed(k, profile, a) && is_profile(pre, p, profile);
    let y = choose|profile: Seq<K::Real>| #[trigger]
        is_absorbed(k, profile, b) && is_profile(pre, q, profile);
    lemma_profile_is_one(pre, p, q, x, y);
    assert(a =~= b) by {
        reveal(shines_alike);
    }
}

proof fn lemma_sum_run_is_one<K: Beam1d>(
    k: K,
    values: Seq<K::Real>,
    a: Seq<K::Real>,
    b: Seq<K::Real>,
    i: int,
)
    requires
        is_reproducible(k),
        is_sum_run(k, values, a),
        is_sum_run(k, values, b),
        0 <= i <= values.len(),
    ensures
        a[i] == b[i],
    decreases i,
{
    if i > 0 {
        lemma_sum_run_is_one(k, values, a, b, i - 1);
        assert(values[i - 1] == values[i - 1]);
        assert(call_ensures(K::plus, (&k, a[i - 1], values[i - 1]), a[i - 1 + 1]));
        assert(call_ensures(K::plus, (&k, b[i - 1], values[i - 1]), b[i - 1 + 1]));
    }
    reveal(is_reproducible);
}

/// The sum of some values is a function of the values.
pub(crate) proof fn lemma_sum_is_one<K: Beam1d>(k: K, values: Seq<K::Real>, x: K::Real, y: K::Real)
    requires
        is_reproducible(k),
        is_sum(k, values, x),
        is_sum(k, values, y),
    ensures
        x == y,
{
    let a = choose|run: Seq<K::Real>| #[trigger] is_sum_run(k, values, run) && run.last() == x;
    let b = choose|run: Seq<K::Real>| #[trigger] is_sum_run(k, values, run) && run.last() == y;
    lemma_sum_run_is_one(k, values, a, b, values.len() as int);
}

proof fn lemma_max_run_is_one<K: Beam1d>(
    k: K,
    start: K::Real,
    values: Seq<K::Real>,
    a: Seq<K::Real>,
    b: Seq<K::Real>,
    i: int,
)
    requires
        is_reproducible(k),
        is_max_run(k, start, values, a),
        is_max_run(k, start, values, b),
        0 <= i <= values.len(),
    ensures
        a[i] == b[i],
    decreases i,
{
    if i > 0 {
        lemma_max_run_is_one(k, start, values, a, b, i - 1);
        assert(values[i - 1] == values[i - 1]);
        assert(call_ensures(K::larger, (&k, a[i - 1], values[i - 1]), a[i - 1 + 1]));
        assert(call_ensures(K::larger, (&k, b[i - 1], values[i - 1]), b[i - 1 + 1]));
    }
    reveal(is_reproducible);
}

pub(crate) proof fn lemma_max_is_one<K: Beam1d>(
    k: K,
    start: K::Real,
    values: Seq<K::Real>,
    x: K::Real,
    y: K::Real,
)
    requires
        is_reproducible(k),
        is_max(k, start, values, x),
        is_max(k, start, values, y),
    ensures
        x == y,
{
    let a = choose|run: Seq<K::Real>| #[trigger]
        is_max_run(k, start, values, run) && run.last() == x;
    let b = choose|run: Seq<K::Real>| #[trigger]
        is_max_run(k, start, values, run) && run.last() == y;
    lemma_max_run_is_one(k, start, values, a, b, values.len() as int);
}

proof fn lemma_heating_is_one<K: Beam1d>(
    pre: Domain1d<K>,
    dt: K::Real,
    q: Seq<K::Real>,
    a: Seq<Conserved<K::Real>>,
    b: Seq<Conserved<K::Real>>,
)
    requires
        flows_alike(pre.scheme),
        is_heating(pre, dt, listed(q), a),
        is_heating(pre, dt, listed(q), b),
    ensures
        a == b,
{
    reveal(flows_alike);
    assert forall|i: int| 0 <= i < a.len() implies a[i] == b[i] by {
        assert(is_heated(pre.scheme, dt, listed(q), i, pre.cells[i], a[i]));
        assert(is_heated(pre.scheme, dt, listed(q), i, pre.cells[i], b[i]));
    }
    assert(a =~= b);
}

proof fn lemma_deposit_is_one<K: Beam1d>(
    pre: Column1d<K>,
    dt: K::Real,
    p: Column1d<K>,
    q: Column1d<K>,
)
    requires
        is_repeatable_column(pre.hydro.scheme),
        is_deposit(pre, dt, p, Ok(())),
        is_deposit(pre, dt, q, Ok(())),
    ensures
        p == q,
{
    let (m, x) = choose|mid: Column1d<K>, x: Seq<K::Real>| #[trigger]
        is_deposited(pre, mid, x) && #[trigger] is_banking(mid, dt, x, p, Ok(()));
    let (l, y) = choose|mid: Column1d<K>, x: Seq<K::Real>| #[trigger]
        is_deposited(pre, mid, x) && #[trigger] is_banking(mid, dt, x, q, Ok(()));
    lemma_deposition_is_one(pre, m, l, x, y);
    assert(m.hydro.scheme == pre.hydro.scheme);
    lemma_heating_is_one(m.hydro, dt, x, p.hydro.cells, q.hydro.cells);
    let k = m.hydro.scheme;
    let s = choose|sum: K::Real| #[trigger]
        is_sum(k, x, sum) && call_ensures(K::bank, (&k, m.deposited, dt, sum), p.deposited);
    let t = choose|sum: K::Real| #[trigger]
        is_sum(k, x, sum) && call_ensures(K::bank, (&k, m.deposited, dt, sum), q.deposited);
    lemma_sum_is_one(k, x, s, t);
    reveal(shines_alike);
}

/// A step of a line is a function of the line.
pub(crate) proof fn lemma_step_is_one<K: Scheme1d>(
    pre: Domain1d<K>,
    dt: K::Real,
    a: Domain1d<K>,
    b: Domain1d<K>,
)
    requires
        is_reproducible(pre.scheme),
        flows_alike(pre.scheme),
        is_unforced_outcome(pre, dt, a, Ok(())),
        is_unforced_outcome(pre, dt, b, Ok(())),
    ensures
        a == b,
{
    let k = pre.scheme;
    assert(is_deterministic(k, dt) && weighs_reproducibly(k, dt)) by {
        reveal(flows_alike);
    }
    let zero = choose|zero: K::Real|
        #[trigger] call_ensures(K::zero, (&k,), zero) && is_step_outcome(
            pre,
            dt,
            constant_rate(zero),
            a,
            Ok(()),
        );
    let rates = constant_rate(zero);
    assert(is_step(pre, dt, rates, a) && is_step(pre, dt, rates, b)) by {
        reveal(is_reproducible);
    }
    let (f, x) = choose|
        faces: Seq<(Conserved<K::Real>, Conserved<K::Real>)>,
        fluxes: Seq<Conserved<K::Real>>,
    | #[trigger] is_update(pre, dt, rates, faces, fluxes, a.cells);
    let (g, y) = choose|
        faces: Seq<(Conserved<K::Real>, Conserved<K::Real>)>,
        fluxes: Seq<Conserved<K::Real>>,
    | #[trigger] is_update(pre, dt, rates, faces, fluxes, b.cells);
    lemma_faces_and_fluxes_are_one(
        k,
        dt,
        ghosted(pre.cells, pre.boundary),
        f,
        g,
    );
    assert(x == y);
    assert forall|i: int| 0 <= i < a.cells.len() implies a.cells[i] == b.cells[i] by {
        assert(is_cell_update(pre, dt, rates, x, i, a.cells[i]));
        assert(is_cell_update(pre, dt, rates, x, i, b.cells[i]));
        let u = choose|u: Conserved<K::Real>|
            {
                &&& #[trigger] is_advanced(k, dt, pre.cells[i], x[i], x[i + 1], u)
                &&& is_heated(k, dt, rates, i, u, a.cells[i])
            };
        let v = choose|u: Conserved<K::Real>|
            {
                &&& #[trigger] is_advanced(k, dt, pre.cells[i], x[i], x[i + 1], u)
                &&& is_heated(k, dt, rates, i, u, b.cells[i])
            };
        lemma_advance_is_one(k, dt, pre.cells[i], x[i], x[i + 1], u, v);
        reveal(flows_alike);
    }
    assert(a.cells =~= b.cells);
    reveal(is_reproducible);
}

/// A coupled step of a column is a function of the column.
pub proof fn law_advance_is_reproducible<K: Beam1d>(
    pre: Column1d<K>,
    dt: K::Real,
    p: Column1d<K>,
    q: Column1d<K>,
)
    requires
        is_repeatable_column(pre.hydro.scheme),
        is_advance(pre, dt, p, Ok(())),
        is_advance(pre, dt, q, Ok(())),
    ensures
        p == q,
{
    let (h, a, b) = choose|half: K::Real, a: Column1d<K>, b: Column1d<K>| #[trigger]
        is_advance_staged(pre, dt, half, a, b, p, Ok(()));
    let (g, c, d) = choose|half: K::Real, a: Column1d<K>, b: Column1d<K>| #[trigger]
        is_advance_staged(pre, dt, half, a, b, q, Ok(()));
    assert(h == g) by {
        reveal(is_reproducible);
    }
    lemma_deposit_is_one(pre, h, a, c);
    lemma_deposit_keeps_scheme(pre, h, a);
    lemma_step_is_one(a.hydro, dt, b.hydro, d.hydro);
    assert(b == d);
    lemma_deposit_is_one(b, h, p, q);
}

proof fn lemma_deposit_keeps_scheme<K: Beam1d>(pre: Column1d<K>, dt: K::Real, post: Column1d<K>)
    requires
        is_deposit(pre, dt, post, Ok(())),
    ensures
        post.hydro.scheme == pre.hydro.scheme,
{
    let (m, x) = choose|mid: Column1d<K>, x: Seq<K::Real>| #[trigger]
        is_deposited(pre, mid, x) && #[trigger] is_banking(mid, dt, x, post, Ok(()));
    assert(m.hydro == pre.hydro);
}

/// A step keeps the arithmetic of a column.
pub(crate) proof fn lemma_advance_keeps_scheme<K: Beam1d>(
    pre: Column1d<K>,
    dt: K::Real,
    post: Column1d<K>,
)
    requires
        is_advance(pre, dt, post, Ok(())),
    ensures
        post.hydro.scheme == pre.hydro.scheme,
{
    let (h, a, b) = choose|half: K::Real, a: Column1d<K>, b: Column1d<K>| #[trigger]
        is_advance_staged(pre, dt, half, a, b, post, Ok(()));
    lemma_deposit_keeps_scheme(pre, h, a);
    lemma_deposit_keeps_scheme(b, h, post);
}

proof fn lemma_speed_run_is_one<K: Scheme1d>(
    k: K,
    cells: Seq<Conserved<K::Real>>,
    a: Seq<K::Real>,
    b: Seq<K::Real>,
    i: int,
)
    requires
        is_reproducible(k),
        flows_alike(k),
        is_speed_run(k, cells, a),
        is_speed_run(k, cells, b),
        0 <= i <= cells.len(),
    ensures
        a[i] == b[i],
    decreases i,
{
    if i > 0 {
        lemma_speed_run_is_one(k, cells, a, b, i - 1);
        let c = cells[i - 1];
        assert(is_larger_speed(k, c, a[i - 1], a[i - 1 + 1]));
        assert(is_larger_speed(k, c, b[i - 1], b[i - 1 + 1]));
        reveal(flows_alike);
    }
    reveal(is_reproducible);
}

proof fn lemma_stable_dt_is_one<K: Scheme1d>(pre: Domain1d<K>, x: K::Real, y: K::Real)
    requires
        is_reproducible(pre.scheme),
        flows_alike(pre.scheme),
        is_stable_dt(pre, Ok(x)),
        is_stable_dt(pre, Ok(y)),
    ensures
        x == y,
{
    assert forall|s: K::Real, t: K::Real| #[trigger]
        is_max_speed(pre, s) && #[trigger] is_max_speed(pre, t) implies s == t by {
        let a = choose|run: Seq<K::Real>|
            #[trigger] is_speed_run(pre.scheme, pre.cells, run) && run.last() == s;
        let b = choose|run: Seq<K::Real>|
            #[trigger] is_speed_run(pre.scheme, pre.cells, run) && run.last() == t;
        lemma_speed_run_is_one(pre.scheme, pre.cells, a, b, pre.cells.len() as int);
    }
    reveal(flows_alike);
}

proof fn lemma_next_step_is_one<K: Beam1d>(
    k: K,
    cfl: K::Real,
    states: Seq<Primitive<K::Real>>,
    q: Seq<K::Real>,
    dt: K::Real,
    x: K::Real,
    y: K::Real,
)
    requires
        is_repeatable_column(k),
        is_next_step(k, cfl, states, q, dt, x),
        is_next_step(k, cfl, states, q, dt, y),
    ensures
        x == y,
{
    let (a, s) = choose|speeds: Seq<K::Real>, top: K::Real|
        {
            &&& #[trigger] are_predicted(k, states, q, dt, speeds)
            &&& #[trigger] is_max_from_zero(k, speeds, top)
            &&& call_ensures(K::courant_step, (&k, cfl, top), x)
        };
    let (b, t) = choose|speeds: Seq<K::Real>, top: K::Real|
        {
            &&& #[trigger] are_predicted(k, states, q, dt, speeds)
            &&& #[trigger] is_max_from_zero(k, speeds, top)
            &&& call_ensures(K::courant_step, (&k, cfl, top), y)
        };
    assert(a =~= b) by {
        reveal(shines_alike);
    }
    let z = choose|zero: K::Real| #[trigger]
        call_ensures(K::zero, (&k,), zero) && is_max(k, zero, a, s);
    assert(is_max(k, z, a, t)) by {
        reveal(is_reproducible);
    }
    lemma_max_is_one(k, z, a, s, t);
    reveal(flows_alike);
}

proof fn lemma_iteration_is_one<K: Beam1d>(
    mid: Column1d<K>,
    q: Seq<K::Real>,
    v: Seq<Primitive<K::Real>>,
    a: Seq<K::Real>,
    x: K::Real,
    w: Seq<Primitive<K::Real>>,
    b: Seq<K::Real>,
    y: K::Real,
    i: int,
)
    requires
        is_repeatable_column(mid.hydro.scheme),
        is_coupled_step(mid, q, v, a, Ok(x)),
        is_coupled_step(mid, q, w, b, Ok(y)),
        0 <= i < a.len(),
        i < b.len(),
    ensures
        v == w,
        a[i] == b[i],
    decreases i,
{
    let k = mid.hydro.scheme;
    assert(v =~= w) by {
        reveal(flows_alike);
    }
    if i > 0 {
        lemma_iteration_is_one(mid, q, v, a, x, w, b, y, i - 1);
        assert(is_pass(k, mid.hydro.cfl, v, q, a, i - 1));
        assert(is_pass(k, mid.hydro.cfl, w, q, b, i - 1));
        lemma_next_step_is_one(k, mid.hydro.cfl, v, q, a[i - 1], a[i], b[i]);
    } else {
        lemma_stable_dt_is_one(mid.hydro, a[0], b[0]);
    }
}

proof fn lemma_iteration_stops_at_one<K: Beam1d>(
    mid: Column1d<K>,
    q: Seq<K::Real>,
    v: Seq<Primitive<K::Real>>,
    a: Seq<K::Real>,
    x: K::Real,
    w: Seq<Primitive<K::Real>>,
    b: Seq<K::Real>,
    y: K::Real,
)
    requires
        is_repeatable_column(mid.hydro.scheme),
        is_coupled_step(mid, q, v, a, Ok(x)),
        is_coupled_step(mid, q, w, b, Ok(y)),
    ensures
        a.len() >= b.len(),
{
    if a.len() < b.len() {
        let k = mid.hydro.scheme;
        let i = a.len() - 2;
        lemma_iteration_is_one(mid, q, v, a, x, w, b, y, a.len() - 1);
        if i >= 0 {
            lemma_iteration_is_one(mid, q, v, a, x, w, b, y, i);
        }
        assert(is_settled_at(k, a, i, true));
        assert(is_settled_at(k, b, i, false));
        reveal(shines_alike);
    }
}

proof fn lemma_coupled_dt_is_one<K: Beam1d>(
    pre: Column1d<K>,
    p: Column1d<K>,
    q: Column1d<K>,
    x: K::Real,
    y: K::Real,
)
    requires
        is_repeatable_column(pre.hydro.scheme),
        is_coupled_dt(pre, p, Ok(x)),
        is_coupled_dt(pre, q, Ok(y)),
    ensures
        p == q,
        x == y,
        p.hydro == pre.hydro,
{
    let a = choose|d: Seq<K::Real>|
        {
            &&& #[trigger] is_deposited(pre, p, d)
            &&& exists|states: Seq<Primitive<K::Real>>, trace: Seq<K::Real>| #[trigger]
                is_coupled_step(p, d, states, trace, Ok(x))
        };
    let b = choose|d: Seq<K::Real>|
        {
            &&& #[trigger] is_deposited(pre, q, d)
            &&& exists|states: Seq<Primitive<K::Real>>, trace: Seq<K::Real>| #[trigger]
                is_coupled_step(q, d, states, trace, Ok(y))
        };
    lemma_deposition_is_one(pre, p, q, a, b);
    assert(p.hydro == pre.hydro);
    let (v, s) = choose|states: Seq<Primitive<K::Real>>, trace: Seq<K::Real>| #[trigger]
        is_coupled_step(p, a, states, trace, Ok(x));
    let (w, t) = choose|states: Seq<Primitive<K::Real>>, trace: Seq<K::Real>| #[trigger]
        is_coupled_step(p, a, states, trace, Ok(y));
    lemma_iteration_stops_at_one(p, a, v, s, x, w, t, y);
    lemma_iteration_stops_at_one(p, a, w, t, y, v, s, x);
    lemma_iteration_is_one(p, a, v, s, x, w, t, y, s.len() - 1);
    reveal(shines_alike);
}

proof fn lemma_marched_is_one<K: Beam1d>(
    pre: Column1d<K>,
    t_end: K::Real,
    p: Column1d<K>,
    q: Column1d<K>,
)
    requires
        is_repeatable_column(pre.hydro.scheme),
        is_marched(pre, t_end, p),
        is_marched(pre, t_end, q),
    ensures
        p == q,
        p.hydro.scheme == pre.hydro.scheme,
{
    let (s, x) = choose|sized: Column1d<K>, dt: K::Real| #[trigger]
        is_sized(pre, t_end, sized, dt) && is_advance(sized, dt, p, Ok(()));
    let (t, y) = choose|sized: Column1d<K>, dt: K::Real| #[trigger]
        is_sized(pre, t_end, sized, dt) && is_advance(sized, dt, q, Ok(()));
    let k = pre.hydro.scheme;
    let l = choose|limit: K::Real|
        is_coupled_dt(pre, s, Ok(limit)) && #[trigger] call_ensures(
            K::clip,
            (&k, limit, pre.hydro.time, t_end),
            x,
        );
    let m = choose|limit: K::Real|
        is_coupled_dt(pre, t, Ok(limit)) && #[trigger] call_ensures(
            K::clip,
            (&k, limit, pre.hydro.time, t_end),
            y,
        );
    lemma_coupled_dt_is_one(pre, s, t, l, m);
    assert(x == y) by {
        reveal(flows_alike);
    }
    law_advance_is_reproducible(s, x, p, q);
    lemma_advance_keeps_scheme(s, x, p);
}

proof fn lemma_trace_is_one<K: Beam1d>(
    pre: Column1d<K>,
    t_end: K::Real,
    a: Seq<Column1d<K>>,
    b: Seq<Column1d<K>>,
    i: int,
)
    requires
        is_repeatable_column(pre.hydro.scheme),
        is_march_to(pre, t_end, a),
        is_march_to(pre, t_end, b),
        0 <= i < a.len(),
        i < b.len(),
    ensures
        a[i] == b[i],
        a[i].hydro.scheme == pre.hydro.scheme,
    decreases i,
{
    if i > 0 {
        lemma_trace_is_one(pre, t_end, a, b, i - 1);
        assert(is_marched_at(a, t_end, i - 1) && is_marched_at(b, t_end, i - 1));
        lemma_marched_is_one(a[i - 1], t_end, a[i], b[i]);
    }
}

proof fn lemma_trace_stops_at_one<K: Beam1d>(
    pre: Column1d<K>,
    t_end: K::Real,
    a: Seq<Column1d<K>>,
    b: Seq<Column1d<K>>,
)
    requires
        is_repeatable_column(pre.hydro.scheme),
        is_march_to(pre, t_end, a),
        is_march_to(pre, t_end, b),
        call_ensures(
            K::is_before,
            (&a.last().hydro.scheme, a.last().hydro.time, t_end),
            false,
        ),
    ensures
        a.len() >= b.len(),
{
    if a.len() < b.len() {
        let i = a.len() - 1;
        lemma_trace_is_one(pre, t_end, a, b, i);
        assert(is_marched_at(b, t_end, i));
        reveal(flows_alike);
    }
}

/// Where a column arrives is a function of the column and of the time.
pub proof fn law_arrival_is_reproducible<K: Beam1d>(
    pre: Column1d<K>,
    t_end: K::Real,
    p: Column1d<K>,
    q: Column1d<K>,
)
    requires
        is_repeatable_column(pre.hydro.scheme),
        is_advance_to(pre, t_end, p, Ok(())),
        is_advance_to(pre, t_end, q, Ok(())),
    ensures
        p == q,
        p.hydro.scheme == pre.hydro.scheme,
{
    let a = choose|trace: Seq<Column1d<K>>| #[trigger]
        is_march_to(pre, t_end, trace) && is_march_over(
            trace.last(),
            t_end,
            p,
            Ok(()),
        );
    let b = choose|trace: Seq<Column1d<K>>| #[trigger]
        is_march_to(pre, t_end, trace) && is_march_over(
            trace.last(),
            t_end,
            q,
            Ok(()),
        );
    lemma_trace_stops_at_one(pre, t_end, a, b);
    lemma_trace_stops_at_one(pre, t_end, b, a);
    lemma_trace_is_one(pre, t_end, a, b, a.len() - 1);
}

} // verus!

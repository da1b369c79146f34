//! Which way a flux comes from.
//!
//! Flow faster than sound carries the flux of the side that it comes from. The faces of a
//! cell are on either side of it by half its slope, they move together over a half step,
//! and they move as the cell would under their own fluxes. A face that has not moved makes
//! no extremum: it is between its cell and the neighbour on its side.
use crate::algebra::{lemma_commutes, lemma_distributes, lemma_negates, lemma_positive};
use crate::euler1d::Conserved;
use crate::riemann::{
    are_evolved, are_hancock_faces, are_sides, are_waves, each, is_difference, is_exact_in,
    is_flux_of_waves, is_hllc, is_left_wave, is_lower, is_mean_sound, is_minmod, is_moved,
    is_right_wave, is_slope, is_upper, law_limited_slope_makes_no_extremum, orders_slopes,
    Acoustics,
};
use vstd::prelude::*;

verus! {

/// Waves are compared by worth.
#[verifier::opaque]
pub open spec fn ranks_waves<K: Acoustics>(k: K, worth: spec_fn(K::Real) -> real) -> bool {
    &&& forall|a: K::Real, b: K::Real, c: K::Real| #[trigger]
        call_ensures(K::smaller, (&k, a, b), c) ==> worth(c) == if worth(a) < worth(b) {
            worth(a)
        } else {
            worth(b)
        }
    &&& forall|a: K::Real, b: K::Real, c: K::Real| #[trigger]
        call_ensures(K::larger, (&k, a, b), c) ==> worth(c) == if worth(a) > worth(b) {
            worth(a)
        } else {
            worth(b)
        }
    &&& forall|a: K::Real, g: bool| #[trigger]
        call_ensures(K::is_forward, (&k, a), g) ==> g == (worth(a) >= 0real)
    &&& forall|a: K::Real, g: bool| #[trigger]
        call_ensures(K::is_backward, (&k, a), g) ==> g == (worth(a) <= 0real)
}

/// Every signal of a state and of the mean of two states goes to the right: each is at
/// least as fast as its sound.
pub open spec fn all_goes_right<K: Acoustics>(
    k: K,
    left: Conserved<K::Real>,
    right: Conserved<K::Real>,
    worth: spec_fn(K::Real) -> real,
) -> bool {
    &&& forall|v: K::Real, c: K::Real| #[trigger]
        call_ensures(K::velocity, (&k, left), v) && #[trigger] call_ensures(
            K::sound_speed,
            (&k, left),
            c,
        ) ==> worth(v) >= worth(c)
    &&& forall|roe: (K::Real, K::Real), c: K::Real| #[trigger]
        call_ensures(K::roe, (&k, left, right), roe) && #[trigger] is_mean_sound(k, roe.1, c)
            ==> worth(roe.0) >= worth(c)
}

/// Every signal goes to the left: the leftmost of the left state and of the mean does,
/// and no signal of the right state or of the mean goes to the right.
pub open spec fn all_goes_left<K: Acoustics>(
    k: K,
    left: Conserved<K::Real>,
    right: Conserved<K::Real>,
    worth: spec_fn(K::Real) -> real,
) -> bool {
    &&& forall|v: K::Real, c: K::Real| #[trigger]
        call_ensures(K::velocity, (&k, left), v) && #[trigger] call_ensures(
            K::sound_speed,
            (&k, left),
            c,
        ) ==> worth(v) < worth(c)
    &&& forall|v: K::Real, c: K::Real| #[trigger]
        call_ensures(K::velocity, (&k, right), v) && #[trigger] call_ensures(
            K::sound_speed,
            (&k, right),
            c,
        ) ==> worth(v) + worth(c) <= 0real
    &&& forall|roe: (K::Real, K::Real), c: K::Real| #[trigger]
        call_ensures(K::roe, (&k, left, right), roe) && #[trigger] is_mean_sound(k, roe.1, c)
            ==> worth(roe.0) + worth(c) <= 0real
}

/// Flow faster than sound carries the flux of the side that it comes from: that of the
/// left state where every signal goes right, and that of the right one where every signal
/// goes left.
pub proof fn law_supersonic_flow_carries_the_upwind_flux<K: Acoustics>(
    k: K,
    left: Conserved<K::Real>,
    right: Conserved<K::Real>,
    f: Conserved<K::Real>,
    worth: spec_fn(K::Real) -> real,
)
    requires
        is_exact_in(k, worth),
        ranks_waves(k, worth),
        is_hllc(k, left, right, f),
    ensures
        all_goes_right(k, left, right, worth) ==> call_ensures(K::flux, (&k, left), f),
        all_goes_left(k, left, right, worth) ==> call_ensures(K::flux, (&k, right), f),
{
    let waves = choose|waves: (K::Real, K::Real)| #[trigger]
        are_waves(k, left, right, waves) && is_flux_of_waves(k, left, right, waves, f);
    let (roe, c) = choose|roe: (K::Real, K::Real), c: K::Real|
        {
            &&& #[trigger] call_ensures(K::roe, (&k, left, right), roe)
            &&& #[trigger] is_mean_sound(k, roe.1, c)
            &&& is_left_wave(k, left, (roe.0, c), waves.0)
            &&& is_right_wave(k, right, (roe.0, c), waves.1)
        };
    let (v, s, own, other) = choose|v: K::Real, s: K::Real, own: K::Real, other: K::Real|
        {
            &&& #[trigger] call_ensures(K::velocity, (&k, left), v)
            &&& #[trigger] call_ensures(K::sound_speed, (&k, left), s)
            &&& #[trigger] call_ensures(K::minus, (&k, v, s), own)
            &&& #[trigger] call_ensures(K::minus, (&k, roe.0, c), other)
            &&& call_ensures(K::smaller, (&k, own, other), waves.0)
        };
    reveal(ranks_waves);
    assert(worth(own) == worth(v) - worth(s) && worth(other) == worth(roe.0) - worth(c));
    if all_goes_right(k, left, right, worth) {
        assert(worth(waves.0) >= 0real);
    }
    if all_goes_left(k, left, right, worth) {
        let (w, t, mine, mean) = choose|w: K::Real, t: K::Real, mine: K::Real, mean: K::Real|
            {
                &&& #[trigger] call_ensures(K::velocity, (&k, right), w)
                &&& #[trigger] call_ensures(K::sound_speed, (&k, right), t)
                &&& #[trigger] call_ensures(K::plus, (&k, w, t), mine)
                &&& #[trigger] call_ensures(K::plus, (&k, roe.0, c), mean)
                &&& call_ensures(K::larger, (&k, mine, mean), waves.1)
            };
        assert(worth(mine) == worth(w) + worth(t) && worth(mean) == worth(roe.0) + worth(c));
        assert(worth(waves.0) < 0real);
        assert(worth(waves.1) <= 0real);
    }
}

/// What a face and its opposite are, in one quantity: on either side of the cell by half
/// the slope, and moved together against the difference of their fluxes.
pub open spec fn straddles(
    cell: real,
    slope: real,
    weight: real,
    flux: (real, real),
    faces: (real, real),
) -> bool {
    &&& faces.1 - faces.0 == slope
    &&& faces.0 + faces.1 == 2real * (cell - weight * (flux.1 - flux.0))
}

/// The faces of a cell differ by its limited slope, and their middle is the cell after the
/// half step under the fluxes of its two sides, the lower one below it and the upper above.
pub proof fn law_faces_straddle_their_cell<K: Acoustics>(
    k: K,
    weight: K::Real,
    before: Conserved<K::Real>,
    cell: Conserved<K::Real>,
    after: Conserved<K::Real>,
    faces: (Conserved<K::Real>, Conserved<K::Real>),
    worth: spec_fn(K::Real) -> real,
) -> (r: (Conserved<K::Real>, Conserved<K::Real>, Conserved<K::Real>, Conserved<K::Real>, Conserved<
    K::Real,
>))
    requires
        is_exact_in(k, worth),
        are_hancock_faces(k, weight, before, cell, after, faces),
    ensures
        is_slope(k, before, cell, after, r.0),
        worth(r.1.rho) + worth(r.1.rho) == 2real * worth(cell.rho) - worth(r.0.rho),
        worth(r.1.mom) + worth(r.1.mom) == 2real * worth(cell.mom) - worth(r.0.mom),
        worth(r.1.energy) + worth(r.1.energy) == 2real * worth(cell.energy) - worth(r.0.energy),
        worth(r.2.rho) + worth(r.2.rho) == 2real * worth(cell.rho) + worth(r.0.rho),
        worth(r.2.mom) + worth(r.2.mom) == 2real * worth(cell.mom) + worth(r.0.mom),
        worth(r.2.energy) + worth(r.2.energy) == 2real * worth(cell.energy) + worth(r.0.energy),
        call_ensures(K::flux, (&k, r.1), r.3),
        call_ensures(K::flux, (&k, r.2), r.4),
        straddles(
            worth(cell.rho),
            worth(r.0.rho),
            worth(weight),
            (worth(r.3.rho), worth(r.4.rho)),
            (worth(faces.0.rho), worth(faces.1.rho)),
        ),
        straddles(
            worth(cell.mom),
            worth(r.0.mom),
            worth(weight),
            (worth(r.3.mom), worth(r.4.mom)),
            (worth(faces.0.mom), worth(faces.1.mom)),
        ),
        straddles(
            worth(cell.energy),
            worth(r.0.energy),
            worth(weight),
            (worth(r.3.energy), worth(r.4.energy)),
            (worth(faces.0.energy), worth(faces.1.energy)),
        ),
{
    let (s, lo, hi) = choose|s: Conserved<K::Real>, lo: Conserved<K::Real>, hi: Conserved<K::Real>|
        {
            &&& is_slope(k, before, cell, after, s)
            &&& #[trigger] are_sides(k, cell, s, lo, hi)
            &&& are_evolved(k, weight, lo, hi, faces)
        };
    let (fl, fr, d) = choose|
        fl: Conserved<K::Real>,
        fr: Conserved<K::Real>,
        d: Conserved<K::Real>,
    |
        {
            &&& #[trigger] call_ensures(K::flux, (&k, lo), fl)
            &&& #[trigger] call_ensures(K::flux, (&k, hi), fr)
            &&& #[trigger] is_difference(k, fl, fr, d)
            &&& each(
                |x: K::Real, y: K::Real, z: K::Real| is_moved(k, weight, x, y, z),
                lo,
                d,
                faces.0,
            )
            &&& each(
                |x: K::Real, y: K::Real, z: K::Real| is_moved(k, weight, x, y, z),
                hi,
                d,
                faces.1,
            )
        };
    lemma_component(
        k,
        weight,
        (cell.rho, s.rho, lo.rho, hi.rho),
        (fl.rho, fr.rho, d.rho),
        (faces.0.rho, faces.1.rho),
        worth,
    );
    lemma_component(
        k,
        weight,
        (cell.mom, s.mom, lo.mom, hi.mom),
        (fl.mom, fr.mom, d.mom),
        (faces.0.mom, faces.1.mom),
        worth,
    );
    lemma_component(
        k,
        weight,
        (cell.energy, s.energy, lo.energy, hi.energy),
        (fl.energy, fr.energy, d.energy),
        (faces.0.energy, faces.1.energy),
        worth,
    );
    (s, lo, hi, fl, fr)
}

proof fn lemma_component<K: Acoustics>(
    k: K,
    weight: K::Real,
    c: (K::Real, K::Real, K::Real, K::Real),
    flux: (K::Real, K::Real, K::Real),
    faces: (K::Real, K::Real),
    worth: spec_fn(K::Real) -> real,
)
    requires
        is_exact_in(k, worth),
        is_lower(k, c.0, c.1, c.2),
        is_upper(k, c.0, c.1, c.3),
        call_ensures(K::minus, (&k, flux.0, flux.1), flux.2),
        is_moved(k, weight, c.2, flux.2, faces.0),
        is_moved(k, weight, c.3, flux.2, faces.1),
    ensures
        worth(c.2) + worth(c.2) == 2real * worth(c.0) - worth(c.1),
        worth(c.3) + worth(c.3) == 2real * worth(c.0) + worth(c.1),
        straddles(
            worth(c.0),
            worth(c.1),
            worth(weight),
            (worth(flux.0), worth(flux.1)),
            (worth(faces.0), worth(faces.1)),
        ),
{
    let (w, a, b) = (worth(weight), worth(flux.0), worth(flux.1));
    assert(worth(flux.2) == a - b);
    lemma_distributes(a, b, w);
    lemma_distributes(b, a, w);
}

/// A limited face makes no extremum: where the values rise across a cell, its lower face
/// is between the neighbour below and the cell, and its upper face between the cell and
/// the neighbour above; and where they fall, the other way round.
pub proof fn law_faces_lie_between_cells<K: Acoustics>(
    k: K,
    before: K::Real,
    cell: K::Real,
    after: K::Real,
    back: K::Real,
    ahead: K::Real,
    s: K::Real,
    lo: K::Real,
    hi: K::Real,
    worth: spec_fn(K::Real) -> real,
)
    requires
        is_exact_in(k, worth),
        orders_slopes(k, worth),
        call_ensures(K::minus, (&k, cell, before), back),
        call_ensures(K::minus, (&k, after, cell), ahead),
        is_minmod(k, back, ahead, s),
        is_lower(k, cell, s, lo),
        is_upper(k, cell, s, hi),
    ensures
        worth(before) <= worth(cell) <= worth(after) ==> worth(before) <= worth(lo) <= worth(cell)
            <= worth(hi) <= worth(after),
        worth(before) >= worth(cell) >= worth(after) ==> worth(before) >= worth(lo) >= worth(cell)
            >= worth(hi) >= worth(after),
{
    law_limited_slope_makes_no_extremum(k, back, ahead, s, worth);
    lemma_no_steeper(worth(s), worth(back));
    lemma_no_steeper(worth(s), worth(ahead));
    assert(worth(lo) + worth(lo) == 2real * worth(cell) - worth(s));
    assert(worth(hi) + worth(hi) == 2real * worth(cell) + worth(s));
}

proof fn lemma_no_steeper(a: real, b: real)
    requires
        a * a <= b * b,
    ensures
        a > 0real && b > 0real ==> a <= b,
        a < 0real && b < 0real ==> a >= b,
{
    if a > 0real && b > 0real && a > b {
        lemma_positive(a - b, a);
        lemma_positive(a - b, b);
        lemma_distributes(a, b, a);
        lemma_distributes(a, b, b);
        lemma_commutes(a, b);
    }
    if a < 0real && b < 0real && a < b {
        lemma_positive(b - a, 0real - a);
        lemma_positive(b - a, 0real - b);
        lemma_distributes(b, a, 0real - a);
        lemma_distributes(b, a, 0real - b);
        lemma_negates(a, a);
        lemma_negates(b, a);
        lemma_negates(a, b);
        lemma_negates(b, b);
    }
}

} // verus!

//! What happens at one interface of a one-dimensional flow: limited slopes, faces
//! evolved by half a step, and the flux between two states with the contact
//! restored.
use crate::euler1d::Conserved;
use vstd::prelude::*;

verus! {

/// The arithmetic of a flow at one interface.
pub trait Acoustics: Sized {
    type Real: Copy;

    fn zero(&self) -> Self::Real;

    fn plus(&self, a: Self::Real, b: Self::Real) -> Self::Real;

    fn minus(&self, a: Self::Real, b: Self::Real) -> Self::Real;

    fn times(&self, a: Self::Real, b: Self::Real) -> Self::Real;

    fn half(&self, x: Self::Real) -> Self::Real;

    fn smaller(&self, a: Self::Real, b: Self::Real) -> Self::Real;

    fn larger(&self, a: Self::Real, b: Self::Real) -> Self::Real;

    fn root(&self, x: Self::Real) -> Self::Real;

    /// Whether two slopes differ in sign, or one of them is flat.
    fn opposes(&self, a: Self::Real, b: Self::Real) -> bool;

    /// Whether `a` is smaller than `b`, signs apart.
    fn is_flatter(&self, a: Self::Real, b: Self::Real) -> bool;

    /// Whether `x > 0`.
    fn exceeds_zero(&self, x: Self::Real) -> bool;

    /// Whether `x >= 0`.
    fn is_forward(&self, x: Self::Real) -> bool;

    /// Whether `x <= 0`.
    fn is_backward(&self, x: Self::Real) -> bool;

    /// Physical flux of a state.
    fn flux(&self, u: Conserved<Self::Real>) -> Conserved<Self::Real>;

    fn velocity(&self, u: Conserved<Self::Real>) -> Self::Real;

    fn sound_speed(&self, u: Conserved<Self::Real>) -> Self::Real;

    fn pressure(&self, u: Conserved<Self::Real>) -> Self::Real;

    /// Density-weighted mean velocity of two states, and the square of the mean
    /// sound speed.
    fn roe(&self, left: Conserved<Self::Real>, right: Conserved<Self::Real>) -> (
        Self::Real,
        Self::Real,
    );

    /// Speed of the contact between two states, given their outermost waves.
    fn contact(
        &self,
        left: Conserved<Self::Real>,
        right: Conserved<Self::Real>,
        s_left: Self::Real,
        s_right: Self::Real,
    ) -> Self::Real;

    /// The state between an outermost wave and the contact.
    fn star(&self, u: Conserved<Self::Real>, s: Self::Real, s_star: Self::Real) -> Conserved<
        Self::Real,
    >;
}

/// A relation holds component by component.
pub open spec fn each<R>(
    rel: spec_fn(R, R, R) -> bool,
    a: Conserved<R>,
    b: Conserved<R>,
    c: Conserved<R>,
) -> bool {
    &&& rel(a.rho, b.rho, c.rho)
    &&& rel(a.mom, b.mom, c.mom)
    &&& rel(a.energy, b.energy, c.energy)
}

/// `c` is `a - b`.
pub open spec fn is_difference<K: Acoustics>(
    k: K,
    a: Conserved<K::Real>,
    b: Conserved<K::Real>,
    c: Conserved<K::Real>,
) -> bool {
    each(|x: K::Real, y: K::Real, z: K::Real| call_ensures(K::minus, (&k, x, y), z), a, b, c)
}

/// `m` is the smaller of two slopes of one sign, and nothing at an extremum.
pub open spec fn is_minmod<K: Acoustics>(k: K, a: K::Real, b: K::Real, m: K::Real) -> bool {
    ||| call_ensures(K::opposes, (&k, a, b), true) && call_ensures(K::zero, (&k,), m)
    ||| call_ensures(K::opposes, (&k, a, b), false) && call_ensures(K::is_flatter, (&k, a, b), true)
        && m == a
    ||| call_ensures(K::opposes, (&k, a, b), false) && call_ensures(
        K::is_flatter,
        (&k, a, b),
        false,
    ) && m == b
}

/// The smaller of two slopes of one sign, and nothing at an extremum.
pub fn minmod<K: Acoustics>(k: &K, a: K::Real, b: K::Real) -> (m: K::Real)
    ensures
        is_minmod(*k, a, b, m),
{
    if k.opposes(a, b) {
        k.zero()
    } else if k.is_flatter(a, b) {
        a
    } else {
        b
    }
}

fn difference<K: Acoustics>(k: &K, a: Conserved<K::Real>, b: Conserved<K::Real>) -> (c: Conserved<
    K::Real,
>)
    ensures
        is_difference(*k, a, b, c),
{
    Conserved {
        rho: k.minus(a.rho, b.rho),
        mom: k.minus(a.mom, b.mom),
        energy: k.minus(a.energy, b.energy),
    }
}

/// `s` is the limited slope of a cell between its neighbours.
pub open spec fn is_slope<K: Acoustics>(
    k: K,
    before: Conserved<K::Real>,
    cell: Conserved<K::Real>,
    after: Conserved<K::Real>,
    s: Conserved<K::Real>,
) -> bool {
    exists|back: Conserved<K::Real>, ahead: Conserved<K::Real>|
        {
            &&& #[trigger] is_difference(k, cell, before, back)
            &&& #[trigger] is_difference(k, after, cell, ahead)
            &&& each(
                |x: K::Real, y: K::Real, z: K::Real| is_minmod(k, x, y, z),
                back,
                ahead,
                s,
            )
        }
}

/// The limited slope of a cell between its neighbours.
pub fn limited_slope<K: Acoustics>(
    k: &K,
    before: Conserved<K::Real>,
    cell: Conserved<K::Real>,
    after: Conserved<K::Real>,
) -> (s: Conserved<K::Real>)
    ensures
        is_slope(*k, before, cell, after, s),
{
    let back: Conserved<K::Real> = difference(k, cell, before);
    let ahead: Conserved<K::Real> = difference(k, after, cell);
    let s: Conserved<K::Real> = Conserved {
        rho: minmod(k, back.rho, ahead.rho),
        mom: minmod(k, back.mom, ahead.mom),
        energy: minmod(k, back.energy, ahead.energy),
    };
    proof {
        assert(is_difference(*k, cell, before, back));
        assert(is_difference(*k, after, cell, ahead));
    }
    s
}

/// `f` is `u` less half of `d`.
pub open spec fn is_lower<K: Acoustics>(k: K, u: K::Real, d: K::Real, f: K::Real) -> bool {
    exists|h: K::Real| #[trigger]
        call_ensures(K::half, (&k, d), h) && call_ensures(K::minus, (&k, u, h), f)
}

/// `f` is `u` and half of `d`.
pub open spec fn is_upper<K: Acoustics>(k: K, u: K::Real, d: K::Real, f: K::Real) -> bool {
    exists|h: K::Real| #[trigger]
        call_ensures(K::half, (&k, d), h) && call_ensures(K::plus, (&k, u, h), f)
}

/// `v` is `u` and `weight` of `d`.
pub open spec fn is_moved<K: Acoustics>(
    k: K,
    weight: K::Real,
    u: K::Real,
    d: K::Real,
    v: K::Real,
) -> bool {
    exists|q: K::Real| #[trigger]
        call_ensures(K::times, (&k, weight, d), q) && call_ensures(K::plus, (&k, u, q), v)
}

pub(crate) fn lower_face<K: Acoustics>(k: &K, u: K::Real, d: K::Real) -> (f: K::Real)
    ensures
        is_lower(*k, u, d, f),
{
    let h: K::Real = k.half(d);
    k.minus(u, h)
}

pub(crate) fn upper_face<K: Acoustics>(k: &K, u: K::Real, d: K::Real) -> (f: K::Real)
    ensures
        is_upper(*k, u, d, f),
{
    let h: K::Real = k.half(d);
    k.plus(u, h)
}

pub(crate) fn moved<K: Acoustics>(k: &K, weight: K::Real, u: K::Real, d: K::Real) -> (v: K::Real)
    ensures
        is_moved(*k, weight, u, d, v),
{
    let q: K::Real = k.times(weight, d);
    k.plus(u, q)
}

fn moved_state<K: Acoustics>(
    k: &K,
    weight: K::Real,
    u: Conserved<K::Real>,
    d: Conserved<K::Real>,
) -> (v: Conserved<K::Real>)
    ensures
        each(|x: K::Real, y: K::Real, z: K::Real| is_moved(*k, weight, x, y, z), u, d, v),
{
    Conserved {
        rho: moved(k, weight, u.rho, d.rho),
        mom: moved(k, weight, u.mom, d.mom),
        energy: moved(k, weight, u.energy, d.energy),
    }
}

/// The two faces of a cell of slope `s`, before they are evolved.
pub open spec fn are_sides<K: Acoustics>(
    k: K,
    cell: Conserved<K::Real>,
    s: Conserved<K::Real>,
    lo: Conserved<K::Real>,
    hi: Conserved<K::Real>,
) -> bool {
    &&& each(|x: K::Real, y: K::Real, z: K::Real| is_lower(k, x, y, z), cell, s, lo)
    &&& each(|x: K::Real, y: K::Real, z: K::Real| is_upper(k, x, y, z), cell, s, hi)
}

/// The two faces of a cell, evolved by the difference of their own fluxes.
pub open spec fn are_evolved<K: Acoustics>(
    k: K,
    weight: K::Real,
    lo: Conserved<K::Real>,
    hi: Conserved<K::Real>,
    faces: (Conserved<K::Real>, Conserved<K::Real>),
) -> bool {
    exists|fl: Conserved<K::Real>, fr: Conserved<K::Real>, d: Conserved<K::Real>|
        {
            &&& #[trigger] call_ensures(K::flux, (&k, lo), fl)
            &&& #[trigger] call_ensures(K::flux, (&k, hi), fr)
            &&& #[trigger] is_difference(k, fl, fr, d)
            &&& each(
                |x: K::Real, y: K::Real, z: K::Real| is_moved(k, weight, x, y, z),
                lo,
                d,
                faces.0,
            )
            &&& each(
                |x: K::Real, y: K::Real, z: K::Real| is_moved(k, weight, x, y, z),
                hi,
                d,
                faces.1,
            )
        }
}

/// The limited, half-step-evolved faces of a cell.
pub open spec fn are_hancock_faces<K: Acoustics>(
    k: K,
    weight: K::Real,
    before: Conserved<K::Real>,
    cell: Conserved<K::Real>,
    after: Conserved<K::Real>,
    faces: (Conserved<K::Real>, Conserved<K::Real>),
) -> bool {
    exists|s: Conserved<K::Real>, lo: Conserved<K::Real>, hi: Conserved<K::Real>|
        {
            &&& is_slope(k, before, cell, after, s)
            &&& #[trigger] are_sides(k, cell, s, lo, hi)
            &&& are_evolved(k, weight, lo, hi, faces)
        }
}

/// The left and the right face of a cell: its state and its limited slope,
/// evolved by `weight` of the difference of their own fluxes.
pub fn hancock_faces<K: Acoustics>(
    k: &K,
    weight: K::Real,
    before: Conserved<K::Real>,
    cell: Conserved<K::Real>,
    after: Conserved<K::Real>,
) -> (faces: (Conserved<K::Real>, Conserved<K::Real>))
    ensures
        are_hancock_faces(*k, weight, before, cell, after, faces),
{
    let s: Conserved<K::Real> = limited_slope(k, before, cell, after);
    let lo: Conserved<K::Real> = Conserved {
        rho: lower_face(k, cell.rho, s.rho),
        mom: lower_face(k, cell.mom, s.mom),
        energy: lower_face(k, cell.energy, s.energy),
    };
    let hi: Conserved<K::Real> = Conserved {
        rho: upper_face(k, cell.rho, s.rho),
        mom: upper_face(k, cell.mom, s.mom),
        energy: upper_face(k, cell.energy, s.energy),
    };
    let fl: Conserved<K::Real> = k.flux(lo);
    let fr: Conserved<K::Real> = k.flux(hi);
    let d: Conserved<K::Real> = difference(k, fl, fr);
    let faces: (Conserved<K::Real>, Conserved<K::Real>) = (
        moved_state(k, weight, lo, d),
        moved_state(k, weight, hi, d),
    );
    proof {
        assert(are_sides(*k, cell, s, lo, hi));
        assert(is_difference(*k, fl, fr, d));
        assert(are_evolved(*k, weight, lo, hi, faces));
    }
    faces
}

/// `c` is the mean sound speed, nothing where its square is not positive.
pub open spec fn is_mean_sound<K: Acoustics>(k: K, square: K::Real, c: K::Real) -> bool {
    ||| call_ensures(K::exceeds_zero, (&k, square), true) && call_ensures(K::root, (&k, square), c)
    ||| call_ensures(K::exceeds_zero, (&k, square), false) && call_ensures(K::zero, (&k,), c)
}

/// `s` is the leftmost wave: the slower of the left state's and the mean one.
pub open spec fn is_left_wave<K: Acoustics>(
    k: K,
    left: Conserved<K::Real>,
    mean: (K::Real, K::Real),
    s: K::Real,
) -> bool {
    exists|v: K::Real, c: K::Real, own: K::Real, other: K::Real|
        {
            &&& #[trigger] call_ensures(K::velocity, (&k, left), v)
            &&& #[trigger] call_ensures(K::sound_speed, (&k, left), c)
            &&& #[trigger] call_ensures(K::minus, (&k, v, c), own)
            &&& #[trigger] call_ensures(K::minus, (&k, mean.0, mean.1), other)
            &&& call_ensures(K::smaller, (&k, own, other), s)
        }
}

/// `s` is the rightmost wave: the faster of the right state's and the mean one.
pub open spec fn is_right_wave<K: Acoustics>(
    k: K,
    right: Conserved<K::Real>,
    mean: (K::Real, K::Real),
    s: K::Real,
) -> bool {
    exists|v: K::Real, c: K::Real, own: K::Real, other: K::Real|
        {
            &&& #[trigger] call_ensures(K::velocity, (&k, right), v)
            &&& #[trigger] call_ensures(K::sound_speed, (&k, right), c)
            &&& #[trigger] call_ensures(K::plus, (&k, v, c), own)
            &&& #[trigger] call_ensures(K::plus, (&k, mean.0, mean.1), other)
            &&& call_ensures(K::larger, (&k, own, other), s)
        }
}

/// The outermost waves of the interface between two states.
pub open spec fn are_waves<K: Acoustics>(
    k: K,
    left: Conserved<K::Real>,
    right: Conserved<K::Real>,
    waves: (K::Real, K::Real),
) -> bool {
    exists|roe: (K::Real, K::Real), c: K::Real|
        {
            &&& #[trigger] call_ensures(K::roe, (&k, left, right), roe)
            &&& #[trigger] is_mean_sound(k, roe.1, c)
            &&& is_left_wave(k, left, (roe.0, c), waves.0)
            &&& is_right_wave(k, right, (roe.0, c), waves.1)
        }
}

/// The outermost waves of the interface between two states.
pub fn wave_bounds<K: Acoustics>(k: &K, left: Conserved<K::Real>, right: Conserved<K::Real>) -> (
    waves: (K::Real, K::Real))
    ensures
        are_waves(*k, left, right, waves),
{
    let roe: (K::Real, K::Real) = k.roe(left, right);
    let c: K::Real = if k.exceeds_zero(roe.1) {
        k.root(roe.1)
    } else {
        k.zero()
    };
    let (vl, cl): (K::Real, K::Real) = (k.velocity(left), k.sound_speed(left));
    let (vr, cr): (K::Real, K::Real) = (k.velocity(right), k.sound_speed(right));
    let own_left: K::Real = k.minus(vl, cl);
    let mean_left: K::Real = k.minus(roe.0, c);
    let own_right: K::Real = k.plus(vr, cr);
    let mean_right: K::Real = k.plus(roe.0, c);
    let waves: (K::Real, K::Real) = (
        k.smaller(own_left, mean_left),
        k.larger(own_right, mean_right),
    );
    proof {
        assert(is_mean_sound(*k, roe.1, c));
        assert(is_left_wave(*k, left, (roe.0, c), waves.0));
        assert(is_right_wave(*k, right, (roe.0, c), waves.1));
    }
    waves
}

/// `f` is the flux of a state, carried on by the jump to its star state.
pub open spec fn is_star_flux<K: Acoustics>(
    k: K,
    u: Conserved<K::Real>,
    s: K::Real,
    s_star: K::Real,
    f: Conserved<K::Real>,
) -> bool {
    exists|own: Conserved<K::Real>, star: Conserved<K::Real>, jump: Conserved<K::Real>|
        {
            &&& #[trigger] call_ensures(K::flux, (&k, u), own)
            &&& #[trigger] call_ensures(K::star, (&k, u, s, s_star), star)
            &&& #[trigger] is_difference(k, star, u, jump)
            &&& each(
                |x: K::Real, y: K::Real, z: K::Real| is_moved(k, s, x, y, z),
                own,
                jump,
                f,
            )
        }
}

fn star_flux<K: Acoustics>(k: &K, u: Conserved<K::Real>, s: K::Real, s_star: K::Real) -> (f: Conserved<
    K::Real,
>)
    ensures
        is_star_flux(*k, u, s, s_star, f),
{
    let own: Conserved<K::Real> = k.flux(u);
    let star: Conserved<K::Real> = k.star(u, s, s_star);
    let jump: Conserved<K::Real> = difference(k, star, u);
    let f: Conserved<K::Real> = moved_state(k, s, own, jump);
    proof {
        assert(is_difference(*k, star, u, jump));
    }
    f
}

/// The flux between two states of given outermost waves: that of the left state
/// where every wave goes right, that of the right state where every wave goes
/// left, and else that of the star state on the side that the contact leaves.
pub open spec fn is_flux_of_waves<K: Acoustics>(
    k: K,
    left: Conserved<K::Real>,
    right: Conserved<K::Real>,
    waves: (K::Real, K::Real),
    f: Conserved<K::Real>,
) -> bool {
    let forward = call_ensures(K::is_forward, (&k, waves.0), true);
    let mixed = call_ensures(K::is_forward, (&k, waves.0), false);
    let backward = mixed && call_ensures(K::is_backward, (&k, waves.1), true);
    let subsonic = mixed && call_ensures(K::is_backward, (&k, waves.1), false);
    ||| forward && call_ensures(K::flux, (&k, left), f)
    ||| backward && call_ensures(K::flux, (&k, right), f)
    ||| subsonic && exists|s_star: K::Real| #[trigger]
        call_ensures(K::contact, (&k, left, right, waves.0, waves.1), s_star) && {
            ||| call_ensures(K::is_forward, (&k, s_star), true) && is_star_flux(
                k,
                left,
                waves.0,
                s_star,
                f,
            )
            ||| call_ensures(K::is_forward, (&k, s_star), false) && is_star_flux(
                k,
                right,
                waves.1,
                s_star,
                f,
            )
        }
}

/// `f` is the flux between two states.
pub open spec fn is_hllc<K: Acoustics>(
    k: K,
    left: Conserved<K::Real>,
    right: Conserved<K::Real>,
    f: Conserved<K::Real>,
) -> bool {
    exists|waves: (K::Real, K::Real)| #[trigger]
        are_waves(k, left, right, waves) && is_flux_of_waves(k, left, right, waves, f)
}

/// The flux through the interface between two states.
pub fn hllc_flux<K: Acoustics>(k: &K, left: Conserved<K::Real>, right: Conserved<K::Real>) -> (f:
    Conserved<K::Real>)
    ensures
        is_hllc(*k, left, right, f),
{
    let waves: (K::Real, K::Real) = wave_bounds(k, left, right);
    let f: Conserved<K::Real> = if k.is_forward(waves.0) {
        k.flux(left)
    } else if k.is_backward(waves.1) {
        k.flux(right)
    } else {
        let s_star: K::Real = k.contact(left, right, waves.0, waves.1);
        if k.is_forward(s_star) {
            star_flux(k, left, waves.0, s_star)
        } else {
            star_flux(k, right, waves.1, s_star)
        }
    };
    proof {
        assert(is_flux_of_waves(*k, left, right, waves, f));
    }
    f
}

/// `v` is `u` less `weight` of `d`.
pub open spec fn is_reduced<K: Acoustics>(
    k: K,
    weight: K::Real,
    u: K::Real,
    d: K::Real,
    v: K::Real,
) -> bool {
    exists|q: K::Real| #[trigger]
        call_ensures(K::times, (&k, weight, d), q) && call_ensures(K::minus, (&k, u, q), v)
}

pub(crate) fn reduced<K: Acoustics>(k: &K, weight: K::Real, u: K::Real, d: K::Real) -> (v: K::Real)
    ensures
        is_reduced(*k, weight, u, d, v),
{
    let q: K::Real = k.times(weight, d);
    k.minus(u, q)
}

/// `v` is the cell `u` less `weight` of the difference of the fluxes through its
/// two interfaces.
pub open spec fn is_flux_update<K: Acoustics>(
    k: K,
    weight: K::Real,
    u: Conserved<K::Real>,
    flux_lo: Conserved<K::Real>,
    flux_hi: Conserved<K::Real>,
    v: Conserved<K::Real>,
) -> bool {
    exists|d: Conserved<K::Real>| #[trigger]
        is_difference(k, flux_hi, flux_lo, d) && each(
            |x: K::Real, y: K::Real, z: K::Real| is_reduced(k, weight, x, y, z),
            u,
            d,
            v,
        )
}

/// The conservative update of a cell from the fluxes through its two interfaces.
pub fn flux_update<K: Acoustics>(
    k: &K,
    weight: K::Real,
    u: Conserved<K::Real>,
    flux_lo: Conserved<K::Real>,
    flux_hi: Conserved<K::Real>,
) -> (v: Conserved<K::Real>)
    ensures
        is_flux_update(*k, weight, u, flux_lo, flux_hi, v),
{
    let d: Conserved<K::Real> = difference(k, flux_hi, flux_lo);
    proof {
        assert(is_difference(*k, flux_hi, flux_lo, d));
    }
    Conserved {
        rho: reduced(k, weight, u.rho, d.rho),
        mom: reduced(k, weight, u.mom, d.mom),
        energy: reduced(k, weight, u.energy, d.energy),
    }
}

/// Every operation is a function of its arguments.
#[verifier::opaque]
pub open spec fn is_reproducible<K: Acoustics>(k: K) -> bool {
    &&& forall|x: K::Real, y: K::Real|
        #![trigger call_ensures(K::zero, (&k,), x), call_ensures(K::zero, (&k,), y)]
        call_ensures(K::zero, (&k,), x) && call_ensures(K::zero, (&k,), y) ==> x == y
    &&& forall|a: K::Real, b: K::Real, x: K::Real, y: K::Real|
        #![trigger call_ensures(K::plus, (&k, a, b), x), call_ensures(K::plus, (&k, a, b), y)]
        call_ensures(K::plus, (&k, a, b), x) && call_ensures(K::plus, (&k, a, b), y) ==> x == y
    &&& forall|a: K::Real, b: K::Real, x: K::Real, y: K::Real|
        #![trigger call_ensures(K::minus, (&k, a, b), x), call_ensures(K::minus, (&k, a, b), y)]
        call_ensures(K::minus, (&k, a, b), x) && call_ensures(K::minus, (&k, a, b), y) ==> x == y
    &&& forall|a: K::Real, b: K::Real, x: K::Real, y: K::Real|
        #![trigger call_ensures(K::times, (&k, a, b), x), call_ensures(K::times, (&k, a, b), y)]
        call_ensures(K::times, (&k, a, b), x) && call_ensures(K::times, (&k, a, b), y) ==> x == y
    &&& forall|a: K::Real, x: K::Real, y: K::Real|
        #![trigger call_ensures(K::half, (&k, a), x), call_ensures(K::half, (&k, a), y)]
        call_ensures(K::half, (&k, a), x) && call_ensures(K::half, (&k, a), y) ==> x == y
    &&& forall|a: K::Real, b: K::Real, x: K::Real, y: K::Real|
        #![trigger call_ensures(K::smaller, (&k, a, b), x), call_ensures(K::smaller, (&k, a, b), y)]
        call_ensures(K::smaller, (&k, a, b), x) && call_ensures(K::smaller, (&k, a, b), y) ==> x == y
    &&& forall|a: K::Real, b: K::Real, x: K::Real, y: K::Real|
        #![trigger call_ensures(K::larger, (&k, a, b), x), call_ensures(K::larger, (&k, a, b), y)]
        call_ensures(K::larger, (&k, a, b), x) && call_ensures(K::larger, (&k, a, b), y) ==> x == y
    &&& forall|a: K::Real, x: K::Real, y: K::Real|
        #![trigger call_ensures(K::root, (&k, a), x), call_ensures(K::root, (&k, a), y)]
        call_ensures(K::root, (&k, a), x) && call_ensures(K::root, (&k, a), y) ==> x == y
    &&& forall|a: K::Real, b: K::Real, x: bool, y: bool|
        #![trigger call_ensures(K::opposes, (&k, a, b), x), call_ensures(K::opposes, (&k, a, b), y)]
        call_ensures(K::opposes, (&k, a, b), x) && call_ensures(K::opposes, (&k, a, b), y) ==> x == y
    &&& forall|a: K::Real, b: K::Real, x: bool, y: bool|
        #![trigger call_ensures(K::is_flatter, (&k, a, b), x), call_ensures(K::is_flatter, (&k, a, b), y)]
        call_ensures(K::is_flatter, (&k, a, b), x) && call_ensures(K::is_flatter, (&k, a, b), y) ==> x == y
    &&& forall|a: K::Real, x: bool, y: bool|
        #![trigger call_ensures(K::exceeds_zero, (&k, a), x), call_ensures(K::exceeds_zero, (&k, a), y)]
        call_ensures(K::exceeds_zero, (&k, a), x) && call_ensures(K::exceeds_zero, (&k, a), y) ==> x == y
    &&& forall|a: K::Real, x: bool, y: bool|
        #![trigger call_ensures(K::is_forward, (&k, a), x), call_ensures(K::is_forward, (&k, a), y)]
        call_ensures(K::is_forward, (&k, a), x) && call_ensures(K::is_forward, (&k, a), y) ==> x == y
    &&& forall|a: K::Real, x: bool, y: bool|
        #![trigger call_ensures(K::is_backward, (&k, a), x), call_ensures(K::is_backward, (&k, a), y)]
        call_ensures(K::is_backward, (&k, a), x) && call_ensures(K::is_backward, (&k, a), y) ==> x == y
    &&& forall|u: Conserved<K::Real>, x: Conserved<K::Real>, y: Conserved<K::Real>|
        #![trigger call_ensures(K::flux, (&k, u), x), call_ensures(K::flux, (&k, u), y)]
        call_ensures(K::flux, (&k, u), x) && call_ensures(K::flux, (&k, u), y) ==> x == y
    &&& forall|u: Conserved<K::Real>, x: K::Real, y: K::Real|
        #![trigger call_ensures(K::velocity, (&k, u), x), call_ensures(K::velocity, (&k, u), y)]
        call_ensures(K::velocity, (&k, u), x) && call_ensures(K::velocity, (&k, u), y) ==> x == y
    &&& forall|u: Conserved<K::Real>, x: K::Real, y: K::Real|
        #![trigger call_ensures(K::sound_speed, (&k, u), x), call_ensures(K::sound_speed, (&k, u), y)]
        call_ensures(K::sound_speed, (&k, u), x) && call_ensures(K::sound_speed, (&k, u), y) ==> x == y
    &&& forall|u: Conserved<K::Real>, x: K::Real, y: K::Real|
        #![trigger call_ensures(K::pressure, (&k, u), x), call_ensures(K::pressure, (&k, u), y)]
        call_ensures(K::pressure, (&k, u), x) && call_ensures(K::pressure, (&k, u), y) ==> x == y
    &&& forall|u: Conserved<K::Real>, w: Conserved<K::Real>, x: (K::Real, K::Real), y: (K::Real, K::Real)|
        #![trigger call_ensures(K::roe, (&k, u, w), x), call_ensures(K::roe, (&k, u, w), y)]
        call_ensures(K::roe, (&k, u, w), x) && call_ensures(K::roe, (&k, u, w), y) ==> x == y
    &&& forall|u: Conserved<K::Real>, w: Conserved<K::Real>, a: K::Real, b: K::Real, x: K::Real, y: K::Real|
        #![trigger call_ensures(K::contact, (&k, u, w, a, b), x), call_ensures(K::contact, (&k, u, w, a, b), y)]
        call_ensures(K::contact, (&k, u, w, a, b), x) && call_ensures(K::contact, (&k, u, w, a, b), y) ==> x == y
    &&& forall|u: Conserved<K::Real>, a: K::Real, b: K::Real, x: Conserved<K::Real>, y: Conserved<K::Real>|
        #![trigger call_ensures(K::star, (&k, u, a, b), x), call_ensures(K::star, (&k, u, a, b), y)]
        call_ensures(K::star, (&k, u, a, b), x) && call_ensures(K::star, (&k, u, a, b), y) ==> x == y
}

/// Whatever one arithmetic may answer, the other may.
#[verifier::opaque]
pub open spec fn agrees<K: Acoustics, L: Acoustics<Real = K::Real>>(k: K, l: L) -> bool {
    &&& forall|x: K::Real| #[trigger]
        call_ensures(K::zero, (&k,), x) ==> call_ensures(L::zero, (&l,), x)
    &&& forall|a: K::Real, b: K::Real, x: K::Real| #[trigger]
        call_ensures(K::plus, (&k, a, b), x) ==> call_ensures(L::plus, (&l, a, b), x)
    &&& forall|a: K::Real, b: K::Real, x: K::Real| #[trigger]
        call_ensures(K::minus, (&k, a, b), x) ==> call_ensures(L::minus, (&l, a, b), x)
    &&& forall|a: K::Real, b: K::Real, x: K::Real| #[trigger]
        call_ensures(K::times, (&k, a, b), x) ==> call_ensures(L::times, (&l, a, b), x)
    &&& forall|a: K::Real, x: K::Real| #[trigger]
        call_ensures(K::half, (&k, a), x) ==> call_ensures(L::half, (&l, a), x)
    &&& forall|a: K::Real, b: K::Real, x: K::Real| #[trigger]
        call_ensures(K::smaller, (&k, a, b), x) ==> call_ensures(L::smaller, (&l, a, b), x)
    &&& forall|a: K::Real, b: K::Real, x: K::Real| #[trigger]
        call_ensures(K::larger, (&k, a, b), x) ==> call_ensures(L::larger, (&l, a, b), x)
    &&& forall|a: K::Real, x: K::Real| #[trigger]
        call_ensures(K::root, (&k, a), x) ==> call_ensures(L::root, (&l, a), x)
    &&& forall|a: K::Real, b: K::Real, x: bool| #[trigger]
        call_ensures(K::opposes, (&k, a, b), x) ==> call_ensures(L::opposes, (&l, a, b), x)
    &&& forall|a: K::Real, b: K::Real, x: bool| #[trigger]
        call_ensures(K::is_flatter, (&k, a, b), x) ==> call_ensures(L::is_flatter, (&l, a, b), x)
    &&& forall|a: K::Real, x: bool| #[trigger]
        call_ensures(K::exceeds_zero, (&k, a), x) ==> call_ensures(L::exceeds_zero, (&l, a), x)
    &&& forall|a: K::Real, x: bool| #[trigger]
        call_ensures(K::is_forward, (&k, a), x) ==> call_ensures(L::is_forward, (&l, a), x)
    &&& forall|a: K::Real, x: bool| #[trigger]
        call_ensures(K::is_backward, (&k, a), x) ==> call_ensures(L::is_backward, (&l, a), x)
    &&& forall|u: Conserved<K::Real>, x: Conserved<K::Real>| #[trigger]
        call_ensures(K::flux, (&k, u), x) ==> call_ensures(L::flux, (&l, u), x)
    &&& forall|u: Conserved<K::Real>, x: K::Real| #[trigger]
        call_ensures(K::velocity, (&k, u), x) ==> call_ensures(L::velocity, (&l, u), x)
    &&& forall|u: Conserved<K::Real>, x: K::Real| #[trigger]
        call_ensures(K::sound_speed, (&k, u), x) ==> call_ensures(L::sound_speed, (&l, u), x)
    &&& forall|u: Conserved<K::Real>, x: K::Real| #[trigger]
        call_ensures(K::pressure, (&k, u), x) ==> call_ensures(L::pressure, (&l, u), x)
    &&& forall|u: Conserved<K::Real>, w: Conserved<K::Real>, x: (K::Real, K::Real)| #[trigger]
        call_ensures(K::roe, (&k, u, w), x) ==> call_ensures(L::roe, (&l, u, w), x)
    &&& forall|u: Conserved<K::Real>, w: Conserved<K::Real>, a: K::Real, b: K::Real, x: K::Real| #[trigger]
        call_ensures(K::contact, (&k, u, w, a, b), x) ==> call_ensures(L::contact, (&l, u, w, a, b), x)
    &&& forall|u: Conserved<K::Real>, a: K::Real, b: K::Real, x: Conserved<K::Real>| #[trigger]
        call_ensures(K::star, (&k, u, a, b), x) ==> call_ensures(L::star, (&l, u, a, b), x)
}

/// Equal values cancel, and nothing is a share of nothing and changes nothing.
pub open spec fn cancels<K: Acoustics>(k: K, nothing: K::Real) -> bool {
    &&& forall|x: K::Real| #[trigger] call_ensures(K::zero, (&k,), x) ==> x == nothing
    &&& forall|a: K::Real, x: K::Real| #[trigger]
        call_ensures(K::minus, (&k, a, a), x) ==> x == nothing
    &&& forall|a: K::Real, x: K::Real| #[trigger]
        call_ensures(K::minus, (&k, a, nothing), x) ==> x == a
    &&& forall|a: K::Real, x: K::Real| #[trigger]
        call_ensures(K::plus, (&k, a, nothing), x) ==> x == a
    &&& forall|a: K::Real, x: K::Real| #[trigger]
        call_ensures(K::times, (&k, a, nothing), x) ==> x == nothing
    &&& forall|x: K::Real| #[trigger] call_ensures(K::half, (&k, nothing), x) ==> x == nothing
}

proof fn lemma_slope_is_one<K: Acoustics>(
    k: K,
    a: Conserved<K::Real>,
    b: Conserved<K::Real>,
    c: Conserved<K::Real>,
    s: Conserved<K::Real>,
    t: Conserved<K::Real>,
)
    requires
        is_reproducible(k),
        is_slope(k, a, b, c, s),
        is_slope(k, a, b, c, t),
    ensures
        s == t,
{
    reveal(is_reproducible);
    let (back1, ahead1) = choose|back: Conserved<K::Real>, ahead: Conserved<K::Real>|
        {
            &&& #[trigger] is_difference(k, b, a, back)
            &&& #[trigger] is_difference(k, c, b, ahead)
            &&& each(
                |x: K::Real, y: K::Real, z: K::Real| is_minmod(k, x, y, z),
                back,
                ahead,
                s,
            )
        };
    let (back2, ahead2) = choose|back: Conserved<K::Real>, ahead: Conserved<K::Real>|
        {
            &&& #[trigger] is_difference(k, b, a, back)
            &&& #[trigger] is_difference(k, c, b, ahead)
            &&& each(
                |x: K::Real, y: K::Real, z: K::Real| is_minmod(k, x, y, z),
                back,
                ahead,
                t,
            )
        };
    assert(back1 == back2);
    assert(ahead1 == ahead2);
}

proof fn lemma_evolution_is_one<K: Acoustics>(
    k: K,
    weight: K::Real,
    lo: Conserved<K::Real>,
    hi: Conserved<K::Real>,
    f: (Conserved<K::Real>, Conserved<K::Real>),
    g: (Conserved<K::Real>, Conserved<K::Real>),
)
    requires
        is_reproducible(k),
        are_evolved(k, weight, lo, hi, f),
        are_evolved(k, weight, lo, hi, g),
    ensures
        f == g,
{
    reveal(is_reproducible);
}

/// The faces of a cell are a function of the cell and its neighbours.
pub proof fn lemma_faces_are_one<K: Acoustics>(
    k: K,
    weight: K::Real,
    a: Conserved<K::Real>,
    b: Conserved<K::Real>,
    c: Conserved<K::Real>,
    f: (Conserved<K::Real>, Conserved<K::Real>),
    g: (Conserved<K::Real>, Conserved<K::Real>),
)
    requires
        is_reproducible(k),
        are_hancock_faces(k, weight, a, b, c, f),
        are_hancock_faces(k, weight, a, b, c, g),
    ensures
        f == g,
{
    reveal(is_reproducible);
    let (s, lo, hi) = choose|s: Conserved<K::Real>, lo: Conserved<K::Real>, hi: Conserved<K::Real>|
        {
            &&& is_slope(k, a, b, c, s)
            &&& #[trigger] are_sides(k, b, s, lo, hi)
            &&& are_evolved(k, weight, lo, hi, f)
        };
    let (t, l2, h2) = choose|s: Conserved<K::Real>, lo: Conserved<K::Real>, hi: Conserved<K::Real>|
        {
            &&& is_slope(k, a, b, c, s)
            &&& #[trigger] are_sides(k, b, s, lo, hi)
            &&& are_evolved(k, weight, lo, hi, g)
        };
    lemma_slope_is_one(k, a, b, c, s, t);
    assert(lo == l2);
    assert(hi == h2);
    lemma_evolution_is_one(k, weight, lo, hi, f, g);
}

proof fn lemma_waves_are_one<K: Acoustics>(
    k: K,
    left: Conserved<K::Real>,
    right: Conserved<K::Real>,
    v: (K::Real, K::Real),
    w: (K::Real, K::Real),
)
    requires
        is_reproducible(k),
        are_waves(k, left, right, v),
        are_waves(k, left, right, w),
    ensures
        v == w,
{
    reveal(is_reproducible);
}

proof fn lemma_star_flux_is_one<K: Acoustics>(
    k: K,
    u: Conserved<K::Real>,
    s: K::Real,
    s_star: K::Real,
    f: Conserved<K::Real>,
    g: Conserved<K::Real>,
)
    requires
        is_reproducible(k),
        is_star_flux(k, u, s, s_star, f),
        is_star_flux(k, u, s, s_star, g),
    ensures
        f == g,
{
    reveal(is_reproducible);
}

/// The flux between two states is a function of the states.
pub proof fn lemma_hllc_is_one<K: Acoustics>(
    k: K,
    left: Conserved<K::Real>,
    right: Conserved<K::Real>,
    f: Conserved<K::Real>,
    g: Conserved<K::Real>,
)
    requires
        is_reproducible(k),
        is_hllc(k, left, right, f),
        is_hllc(k, left, right, g),
    ensures
        f == g,
{
    reveal(is_reproducible);
    let v = choose|waves: (K::Real, K::Real)| #[trigger]
        are_waves(k, left, right, waves) && is_flux_of_waves(k, left, right, waves, f);
    let w = choose|waves: (K::Real, K::Real)| #[trigger]
        are_waves(k, left, right, waves) && is_flux_of_waves(k, left, right, waves, g);
    lemma_waves_are_one(k, left, right, v, w);
    if !call_ensures(K::is_forward, (&k, v.0), true) && !call_ensures(
        K::is_backward,
        (&k, v.1),
        true,
    ) {
        let a = choose|s_star: K::Real| #[trigger]
            call_ensures(K::contact, (&k, left, right, v.0, v.1), s_star) && {
                ||| call_ensures(K::is_forward, (&k, s_star), true) && is_star_flux(
                    k,
                    left,
                    v.0,
                    s_star,
                    f,
                )
                ||| call_ensures(K::is_forward, (&k, s_star), false) && is_star_flux(
                    k,
                    right,
                    v.1,
                    s_star,
                    f,
                )
            };
        let b = choose|s_star: K::Real| #[trigger]
            call_ensures(K::contact, (&k, left, right, v.0, v.1), s_star) && {
                ||| call_ensures(K::is_forward, (&k, s_star), true) && is_star_flux(
                    k,
                    left,
                    v.0,
                    s_star,
                    g,
                )
                ||| call_ensures(K::is_forward, (&k, s_star), false) && is_star_flux(
                    k,
                    right,
                    v.1,
                    s_star,
                    g,
                )
            };
        assert(a == b);
        if is_star_flux(k, left, v.0, a, f) && is_star_flux(k, left, v.0, a, g) {
            lemma_star_flux_is_one(k, left, v.0, a, f, g);
        } else {
            lemma_star_flux_is_one(k, right, v.1, a, f, g);
        }
    }
}

/// Equal cells have their own state at both faces.
/// An update is a function of the cell, the fluxes and the share of their difference.
pub proof fn lemma_flux_update_is_one<K: Acoustics>(
    k: K,
    weight: K::Real,
    u: Conserved<K::Real>,
    lo: Conserved<K::Real>,
    hi: Conserved<K::Real>,
    v: Conserved<K::Real>,
    w: Conserved<K::Real>,
)
    requires
        is_reproducible(k),
        is_flux_update(k, weight, u, lo, hi, v),
        is_flux_update(k, weight, u, lo, hi, w),
    ensures
        v == w,
{
    reveal(is_reproducible);
    let c = choose|d: Conserved<K::Real>| #[trigger]
        is_difference(k, hi, lo, d) && each(
            |x: K::Real, y: K::Real, z: K::Real| is_reduced(k, weight, x, y, z),
            u,
            d,
            v,
        );
    let d = choose|d: Conserved<K::Real>| #[trigger]
        is_difference(k, hi, lo, d) && each(
            |x: K::Real, y: K::Real, z: K::Real| is_reduced(k, weight, x, y, z),
            u,
            d,
            w,
        );
    assert(c == d);
    assert(is_reduced(k, weight, u.rho, c.rho, v.rho) && is_reduced(k, weight, u.rho, c.rho, w.rho));
    assert(is_reduced(k, weight, u.mom, c.mom, v.mom) && is_reduced(k, weight, u.mom, c.mom, w.mom));
    assert(is_reduced(k, weight, u.energy, c.energy, v.energy) && is_reduced(
        k,
        weight,
        u.energy,
        c.energy,
        w.energy,
    ));
}

pub proof fn lemma_uniform_faces<K: Acoustics>(
    k: K,
    weight: K::Real,
    c: Conserved<K::Real>,
    f: (Conserved<K::Real>, Conserved<K::Real>),
    nothing: K::Real,
)
    requires
        is_reproducible(k),
        cancels(k, nothing),
        are_hancock_faces(k, weight, c, c, c, f),
    ensures
        f == (c, c),
{
    reveal(is_reproducible);
    let (s, lo, hi) = choose|s: Conserved<K::Real>, lo: Conserved<K::Real>, hi: Conserved<K::Real>|
        {
            &&& is_slope(k, c, c, c, s)
            &&& #[trigger] are_sides(k, c, s, lo, hi)
            &&& are_evolved(k, weight, lo, hi, f)
        };
    assert(s == (Conserved { rho: nothing, mom: nothing, energy: nothing }));
    assert(lo == c);
    assert(hi == c);
    let (fl, fr, d) = choose|fl: Conserved<K::Real>, fr: Conserved<K::Real>, d: Conserved<K::Real>|
        {
            &&& #[trigger] call_ensures(K::flux, (&k, lo), fl)
            &&& #[trigger] call_ensures(K::flux, (&k, hi), fr)
            &&& #[trigger] is_difference(k, fl, fr, d)
            &&& each(
                |x: K::Real, y: K::Real, z: K::Real| is_moved(k, weight, x, y, z),
                lo,
                d,
                f.0,
            )
            &&& each(
                |x: K::Real, y: K::Real, z: K::Real| is_moved(k, weight, x, y, z),
                hi,
                d,
                f.1,
            )
        };
    assert(fl == fr);
    assert(d == (Conserved { rho: nothing, mom: nothing, energy: nothing }));
}

/// Equal fluxes on both sides leave a cell as it is.
pub proof fn lemma_uniform_flux<K: Acoustics>(
    k: K,
    weight: K::Real,
    u: Conserved<K::Real>,
    f: Conserved<K::Real>,
    v: Conserved<K::Real>,
    nothing: K::Real,
)
    requires
        cancels(k, nothing),
        is_flux_update(k, weight, u, f, f, v),
    ensures
        v == u,
{
    let d = choose|d: Conserved<K::Real>| #[trigger]
        is_difference(k, f, f, d) && each(
            |x: K::Real, y: K::Real, z: K::Real| is_reduced(k, weight, x, y, z),
            u,
            d,
            v,
        );
    assert(d == (Conserved { rho: nothing, mom: nothing, energy: nothing }));
}

/// A flux between two states by one arithmetic is one by another that agrees.
pub proof fn lemma_hllc_agrees<K: Acoustics, L: Acoustics<Real = K::Real>>(
    k: K,
    l: L,
    left: Conserved<K::Real>,
    right: Conserved<K::Real>,
    f: Conserved<K::Real>,
)
    requires
        agrees(k, l),
        is_hllc(k, left, right, f),
    ensures
        is_hllc(l, left, right, f),
{
    reveal(agrees);
    let w = choose|waves: (K::Real, K::Real)| #[trigger]
        are_waves(k, left, right, waves) && is_flux_of_waves(k, left, right, waves, f);
    let (roe, c) = choose|roe: (K::Real, K::Real), c: K::Real|
        {
            &&& #[trigger] call_ensures(K::roe, (&k, left, right), roe)
            &&& #[trigger] is_mean_sound(k, roe.1, c)
            &&& is_left_wave(k, left, (roe.0, c), w.0)
            &&& is_right_wave(k, right, (roe.0, c), w.1)
        };
    assert(is_mean_sound(l, roe.1, c));
    assert(is_left_wave(l, left, (roe.0, c), w.0));
    assert(is_right_wave(l, right, (roe.0, c), w.1));
    assert(are_waves(l, left, right, w));
    assert forall|u: Conserved<K::Real>, s: K::Real, s_star: K::Real| #[trigger]
        is_star_flux(k, u, s, s_star, f) implies is_star_flux(l, u, s, s_star, f) by {
        let (own, star, jump) = choose|
            own: Conserved<K::Real>,
            star: Conserved<K::Real>,
            jump: Conserved<K::Real>,
        |
            {
                &&& #[trigger] call_ensures(K::flux, (&k, u), own)
                &&& #[trigger] call_ensures(K::star, (&k, u, s, s_star), star)
                &&& #[trigger] is_difference(k, star, u, jump)
                &&& each(
                    |x: K::Real, y: K::Real, z: K::Real| is_moved(k, s, x, y, z),
                    own,
                    jump,
                    f,
                )
            };
        assert(is_difference(l, star, u, jump));
        assert(is_moved(l, s, own.rho, jump.rho, f.rho));
        assert(is_moved(l, s, own.mom, jump.mom, f.mom));
        assert(is_moved(l, s, own.energy, jump.energy, f.energy));
    }
    assert(is_flux_of_waves(l, left, right, w, f));
}

/// The arithmetic is exact: what an operation gives is worth what the operation
/// makes of the worths of its arguments.
pub open spec fn is_exact_in<K: Acoustics>(k: K, worth: spec_fn(K::Real) -> real) -> bool {
    &&& forall|x: K::Real| #[trigger] call_ensures(K::zero, (&k,), x) ==> worth(x) == 0real
    &&& forall|a: K::Real, b: K::Real, x: K::Real| #[trigger]
        call_ensures(K::plus, (&k, a, b), x) ==> worth(x) == worth(a) + worth(b)
    &&& forall|a: K::Real, b: K::Real, x: K::Real| #[trigger]
        call_ensures(K::minus, (&k, a, b), x) ==> worth(x) == worth(a) - worth(b)
    &&& forall|a: K::Real, b: K::Real, x: K::Real| #[trigger]
        call_ensures(K::times, (&k, a, b), x) ==> worth(x) == worth(a) * worth(b)
    &&& forall|a: K::Real, x: K::Real| #[trigger]
        call_ensures(K::half, (&k, a), x) ==> worth(x) + worth(x) == worth(a)
}

/// A flux difference moves what there is and creates none: what a cell gains is its
/// share of what its lower interface carries in less what its upper one carries out.
pub proof fn lemma_update_moves<K: Acoustics>(
    k: K,
    weight: K::Real,
    u: Conserved<K::Real>,
    lo: Conserved<K::Real>,
    hi: Conserved<K::Real>,
    v: Conserved<K::Real>,
    worth: spec_fn(K::Real) -> real,
)
    requires
        is_exact_in(k, worth),
        is_flux_update(k, weight, u, lo, hi, v),
    ensures
        worth(v.rho) == worth(u.rho) - worth(weight) * (worth(hi.rho) - worth(lo.rho)),
        worth(v.mom) == worth(u.mom) - worth(weight) * (worth(hi.mom) - worth(lo.mom)),
        worth(v.energy) == worth(u.energy) - worth(weight) * (worth(hi.energy) - worth(lo.energy)),
{
    let d = choose|d: Conserved<K::Real>| #[trigger]
        is_difference(k, hi, lo, d) && each(
            |x: K::Real, y: K::Real, z: K::Real| is_reduced(k, weight, x, y, z),
            u,
            d,
            v,
        );
    assert(is_reduced(k, weight, u.rho, d.rho, v.rho));
    assert(is_reduced(k, weight, u.mom, d.mom, v.mom));
    assert(is_reduced(k, weight, u.energy, d.energy, v.energy));
}

/// The arithmetic takes opposite slopes for opposite, nothing for nothing, and
/// the sizes of slopes for what `size` says.
pub open spec fn orders_slopes<K: Acoustics>(k: K, size: spec_fn(K::Real) -> real) -> bool {
    &&& forall|z: K::Real| #[trigger] call_ensures(K::zero, (&k,), z) ==> size(z) == 0real
    &&& forall|a: K::Real, b: K::Real| #[trigger]
        call_ensures(K::opposes, (&k, a, b), false) ==> (size(a) > 0real && size(b) > 0real) || (
        size(a) < 0real && size(b) < 0real)
    &&& forall|a: K::Real, b: K::Real| #[trigger]
        call_ensures(K::is_flatter, (&k, a, b), true) ==> size(a) * size(a) <= size(b) * size(b)
    &&& forall|a: K::Real, b: K::Real| #[trigger]
        call_ensures(K::is_flatter, (&k, a, b), false) ==> size(b) * size(b) <= size(a) * size(a)
}

/// A limited slope makes no new extremum: it has the sign of both slopes or is
/// flat, and is steeper than neither.
pub proof fn law_limited_slope_makes_no_extremum<K: Acoustics>(
    k: K,
    a: K::Real,
    b: K::Real,
    m: K::Real,
    size: spec_fn(K::Real) -> real,
)
    requires
        is_minmod(k, a, b, m),
        orders_slopes(k, size),
    ensures
        size(m) == 0real || (size(m) > 0real && size(a) > 0real && size(b) > 0real) || (size(m)
            < 0real && size(a) < 0real && size(b) < 0real),
        size(m) * size(m) <= size(a) * size(a),
        size(m) * size(m) <= size(b) * size(b),
{
    let (x, y) = (size(a), size(b));
    assert(0real <= x * x) by (nonlinear_arith);
    assert(0real <= y * y) by (nonlinear_arith);
    assert(0real * 0real == 0real);
}

} // verus!

//! What a wall does to the gas on rings: the reconstruction on its two sides is
//! mirrored, and the flux through it pushes but carries nothing.
//!
//! The ghosts beyond a wall are the images of the cells before it. That the faces at
//! the wall are images of each other, and that the flux between images is at rest,
//! is shown here from what the single operations do to images.
use crate::algebra::{lemma_distributes, lemma_negates, lemma_square_is_not_negative};
use crate::euler1d::Conserved;
use crate::euler2d::{
    are_cell_faces, is_dir_hllc, is_mirror, is_packed, is_unpacked, Conserved2d, Dir, Faces, Metric,
    Scheme2d,
};
use crate::reconstruct::{
    are_evolved2d, are_sides2d, are_weighted_faces, is_dir_flux, is_flux_difference,
    is_geometric_source, is_half_step_drive, is_limited, is_pressure, is_pushed, is_slope2d,
    is_weighted_difference,
};
use crate::riemann::{
    are_waves, is_difference, is_exact_in, is_flux_of_waves, is_hllc, is_left_wave, is_lower,
    is_mean_sound, is_minmod, is_moved, is_right_wave, is_star_flux, is_upper,
};
use vstd::prelude::*;

verus! {

/// A metric seen from the other side.
pub open spec fn turned<R>(metric: Metric<R>) -> Metric<R> {
    Metric { lower: metric.upper, upper: metric.lower, volume: metric.volume }
}

pub open spec fn magnitude(x: real) -> real {
    if x < 0real {
        0real - x
    } else {
        x
    }
}

/// `y` is worth what `x` is, with the sign turned where it is odd.
pub open spec fn echoes<R>(worth: spec_fn(R) -> real, odd: bool, x: R, y: R) -> bool {
    worth(y) == if odd {
        0real - worth(x)
    } else {
        worth(x)
    }
}

/// `v` is worth the image of `u` in a mirror across the line: only what moves along
/// the line is turned.
pub open spec fn is_image<R>(
    worth: spec_fn(R) -> real,
    dir: Dir,
    u: Conserved2d<R>,
    v: Conserved2d<R>,
) -> bool {
    &&& echoes(worth, false, u.rho, v.rho)
    &&& echoes(worth, dir == Dir::Radial, u.mom_r, v.mom_r)
    &&& echoes(worth, dir == Dir::Axial, u.mom_x, v.mom_x)
    &&& echoes(worth, false, u.energy, v.energy)
}

/// `g` is worth the flux `f` seen in that mirror: all of it runs the other way, but
/// for what pushes along the line.
pub open spec fn is_counterflow<R>(
    worth: spec_fn(R) -> real,
    dir: Dir,
    f: Conserved2d<R>,
    g: Conserved2d<R>,
) -> bool {
    &&& echoes(worth, true, f.rho, g.rho)
    &&& echoes(worth, dir == Dir::Axial, f.mom_r, g.mom_r)
    &&& echoes(worth, dir == Dir::Radial, f.mom_x, g.mom_x)
    &&& echoes(worth, true, f.energy, g.energy)
}

/// The same of a one-dimensional state.
pub open spec fn is_image1d<R>(
    worth: spec_fn(R) -> real,
    u: Conserved<R>,
    v: Conserved<R>,
) -> bool {
    &&& echoes(worth, false, u.rho, v.rho)
    &&& echoes(worth, true, u.mom, v.mom)
    &&& echoes(worth, false, u.energy, v.energy)
}

/// A flux that carries no mass, no energy and nothing across the line.
pub open spec fn is_at_rest<R: Copy>(worth: spec_fn(R) -> real, dir: Dir, f: Conserved2d<R>) -> bool {
    &&& worth(f.rho) == 0real
    &&& worth(f.spec_transverse(dir)) == 0real
    &&& worth(f.energy) == 0real
}

/// A state of a gas: density and pressure are above zero.
pub open spec fn is_gas<K: Scheme2d>(
    k: K,
    worth: spec_fn(K::Real) -> real,
    u: Conserved<K::Real>,
) -> bool {
    &&& worth(u.rho) > 0real
    &&& forall|p: K::Real| #[trigger] call_ensures(K::pressure, (&k, u), p) ==> worth(p) > 0real
}

/// The same of a state on rings, by way of its one-dimensional state.
#[verifier::opaque]
pub open spec fn is_gas2d<K: Scheme2d>(
    k: K,
    worth: spec_fn(K::Real) -> real,
    dir: Dir,
    u: Conserved2d<K::Real>,
) -> bool {
    forall|c: Conserved<K::Real>, v: K::Real| #[trigger]
        is_packed(k, u, dir, c, v) ==> is_gas(k, worth, c)
}

/// The operations on a cell are what they are called in a measure, and turn images
/// into images: a negation negates; slopes are limited by sign and magnitude; of an
/// image the pressure is the same and the flux runs the other way; what rides along
/// is carried in proportion.
#[verifier::opaque]
pub open spec fn turns_images<K: Scheme2d>(k: K, worth: spec_fn(K::Real) -> real) -> bool {
    &&& forall|x: K::Real, y: K::Real| #[trigger]
        call_ensures(K::negate, (&k, x), y) ==> worth(y) == 0real - worth(x)
    &&& forall|a: K::Real, b: K::Real, r: bool| #[trigger]
        call_ensures(K::opposes, (&k, a, b), r) ==> r == (worth(a) * worth(b) <= 0real)
    &&& forall|a: K::Real, b: K::Real, r: bool| #[trigger]
        call_ensures(K::is_flatter, (&k, a, b), r) ==> r == (magnitude(worth(a)) < magnitude(
            worth(b),
        ))
    &&& forall|dt: K::Real, volume: K::Real, a: K::Real, b: K::Real| #[trigger]
        call_ensures(K::half_weight, (&k, dt, volume), a) && #[trigger] call_ensures(
            K::half_weight,
            (&k, dt, volume),
            b,
        ) ==> worth(a) == worth(b)
    &&& forall|c: Conserved<K::Real>, d: Conserved<K::Real>, p: K::Real, q: K::Real| #[trigger]
        call_ensures(K::pressure, (&k, c), p) && #[trigger] call_ensures(K::pressure, (&k, d), q)
            && is_image1d(worth, c, d) ==> worth(p) == worth(q)
    &&& forall|
        c: Conserved<K::Real>,
        d: Conserved<K::Real>,
        f: Conserved<K::Real>,
        g: Conserved<K::Real>,
    | #[trigger]
        call_ensures(K::flux, (&k, c), f) && #[trigger] call_ensures(K::flux, (&k, d), g)
            && is_image1d(worth, c, d) ==> {
            &&& echoes(worth, true, f.rho, g.rho)
            &&& echoes(worth, false, f.mom, g.mom)
            &&& echoes(worth, true, f.energy, g.energy)
        }
    &&& forall|m: K::Real, rho: K::Real, n: K::Real, tau: K::Real, a: K::Real, b: K::Real|
        #[trigger] call_ensures(K::transverse_velocity, (&k, m, rho), a) && #[trigger] call_ensures(
            K::transverse_velocity,
            (&k, n, tau),
            b,
        ) && worth(m) == worth(n) && worth(rho) == worth(tau) ==> worth(a) == worth(b)
    &&& forall|e: K::Real, m: K::Real, v: K::Real, x: K::Real| #[trigger]
        call_ensures(K::parallel_energy, (&k, e, m, v), x) ==> worth(x) + worth(x) == worth(e)
            + worth(e) - worth(m) * worth(v)
    &&& forall|f: K::Real, v: K::Real, x: K::Real| #[trigger]
        call_ensures(K::carried_momentum, (&k, f, v), x) ==> worth(x) == worth(f) * worth(v)
    &&& forall|e: K::Real, v: K::Real, m: K::Real, x: K::Real| #[trigger]
        call_ensures(K::carried_energy, (&k, e, v, m), x) ==> worth(x) + worth(x) == worth(e)
            + worth(e) + worth(v) * worth(m)
}

/// The operations at an interface are what they are called in a measure, and see the
/// images of a gas alike: an image moves the other way at the same sound speed, which
/// is above zero; the mean of a state and its image is at rest, with a sound speed
/// above zero; a contact between images, with waves that leave it alike, is at rest;
/// and a star state at a contact at rest has what its outer wave lets through, which
/// is no mass and no energy.
#[verifier::opaque]
pub open spec fn rests_between_images<K: Scheme2d>(k: K, worth: spec_fn(K::Real) -> real) -> bool {
    &&& forall|a: K::Real, b: K::Real, x: K::Real| #[trigger]
        call_ensures(K::smaller, (&k, a, b), x) ==> worth(x) == if worth(a) < worth(b) {
            worth(a)
        } else {
            worth(b)
        }
    &&& forall|a: K::Real, b: K::Real, x: K::Real| #[trigger]
        call_ensures(K::larger, (&k, a, b), x) ==> worth(x) == if worth(a) < worth(b) {
            worth(b)
        } else {
            worth(a)
        }
    &&& forall|x: K::Real, r: bool| #[trigger]
        call_ensures(K::exceeds_zero, (&k, x), r) ==> r == (worth(x) > 0real)
    &&& forall|x: K::Real, r: bool| #[trigger]
        call_ensures(K::is_forward, (&k, x), r) ==> r == (worth(x) >= 0real)
    &&& forall|x: K::Real, r: bool| #[trigger]
        call_ensures(K::is_backward, (&k, x), r) ==> r == (worth(x) <= 0real)
    &&& forall|x: K::Real, c: K::Real| #[trigger]
        call_ensures(K::root, (&k, x), c) && worth(x) > 0real ==> worth(c) > 0real
    &&& forall|c: Conserved<K::Real>, d: Conserved<K::Real>, v: K::Real, w: K::Real| #[trigger]
        call_ensures(K::velocity, (&k, c), v) && #[trigger] call_ensures(K::velocity, (&k, d), w)
            && is_image1d(worth, c, d) ==> worth(w) == 0real - worth(v)
    &&& forall|c: Conserved<K::Real>, d: Conserved<K::Real>, v: K::Real, w: K::Real| #[trigger]
        call_ensures(K::sound_speed, (&k, c), v) && #[trigger] call_ensures(
            K::sound_speed,
            (&k, d),
            w,
        ) && is_image1d(worth, c, d) ==> worth(w) == worth(v)
    &&& forall|c: Conserved<K::Real>, v: K::Real| #[trigger]
        call_ensures(K::sound_speed, (&k, c), v) && is_gas(k, worth, c) ==> worth(v) > 0real
    &&& forall|c: Conserved<K::Real>, d: Conserved<K::Real>, mean: (K::Real, K::Real)| #[trigger]
        call_ensures(K::roe, (&k, c, d), mean) && is_image1d(worth, c, d) && is_gas(k, worth, c)
            && is_gas(k, worth, d) ==> worth(mean.0) == 0real && worth(mean.1) > 0real
    &&& forall|
        c: Conserved<K::Real>,
        d: Conserved<K::Real>,
        s: K::Real,
        t: K::Real,
        x: K::Real,
        v: K::Real,
    | #[trigger]
        call_ensures(K::contact, (&k, c, d, s, t), x) && #[trigger] call_ensures(
            K::velocity,
            (&k, c),
            v,
        ) && is_image1d(worth, c, d) && is_gas(k, worth, c) && is_gas(k, worth, d) && worth(t)
            == 0real - worth(s) && worth(s) < worth(v) ==> worth(x) == 0real
    &&& forall|
        c: Conserved<K::Real>,
        s: K::Real,
        x: K::Real,
        star: Conserved<K::Real>,
        own: Conserved<K::Real>,
        v: K::Real,
    | #[trigger]
        call_ensures(K::star, (&k, c, s, x), star) && #[trigger] call_ensures(K::flux, (&k, c), own)
            && #[trigger] call_ensures(K::velocity, (&k, c), v) && is_gas(k, worth, c) && worth(x)
            == 0real && worth(s) != 0real && worth(s) != worth(v) ==> {
            &&& worth(s) * worth(star.rho) == worth(s) * worth(c.rho) - worth(own.rho)
            &&& worth(s) * worth(star.energy) == worth(s) * worth(c.energy) - worth(own.energy)
        }
}

/// The arithmetic of a scheme is exact in a measure and sees images alike.
pub open spec fn reflects<K: Scheme2d>(k: K, worth: spec_fn(K::Real) -> real) -> bool {
    &&& is_exact_in(k, worth)
    &&& turns_images(k, worth)
    &&& rests_between_images(k, worth)
}

/// The limited slope of images in turned order is the turned slope.
proof fn lemma_slope_turns<K: Scheme2d>(
    k: K,
    worth: spec_fn(K::Real) -> real,
    odd: bool,
    cells: (K::Real, K::Real, K::Real),
    images: (K::Real, K::Real, K::Real),
    m: K::Real,
    n: K::Real,
)
    requires
        reflects(k, worth),
        echoes(worth, odd, cells.0, images.0),
        echoes(worth, odd, cells.1, images.1),
        echoes(worth, odd, cells.2, images.2),
        is_limited(k, cells.0, cells.1, cells.2, m),
        is_limited(k, images.2, images.1, images.0, n),
    ensures
        echoes(worth, !odd, m, n),
{
    let (a, b, c) = cells;
    let (x, y, z) = images;
    let (back, ahead) = choose|back: K::Real, ahead: K::Real|
        {
            &&& #[trigger] call_ensures(K::minus, (&k, b, a), back)
            &&& #[trigger] call_ensures(K::minus, (&k, c, b), ahead)
            &&& is_minmod(k, back, ahead, m)
        };
    let (before, after) = choose|back: K::Real, ahead: K::Real|
        {
            &&& #[trigger] call_ensures(K::minus, (&k, y, z), back)
            &&& #[trigger] call_ensures(K::minus, (&k, x, y), ahead)
            &&& is_minmod(k, back, ahead, n)
        };
    let (p, q) = (worth(back), worth(ahead));
    lemma_negates(p, q);
    assert(worth(before) * worth(after) == p * q);
    if magnitude(p) == magnitude(q) && p != q {
        lemma_square_is_not_negative(q);
        lemma_negates(q, q);
        assert(p == 0real - q);
        assert(p * q <= 0real);
    }
    reveal(turns_images);
}

/// The faces of images are the images of the faces, in turned order.
proof fn lemma_sides_turn<K: Scheme2d>(
    k: K,
    worth: spec_fn(K::Real) -> real,
    odd: bool,
    u: K::Real,
    v: K::Real,
    s: K::Real,
    t: K::Real,
    lo: K::Real,
    hi: K::Real,
    low: K::Real,
    high: K::Real,
)
    requires
        is_exact_in(k, worth),
        echoes(worth, odd, u, v),
        echoes(worth, !odd, s, t),
        is_lower(k, u, s, lo),
        is_upper(k, u, s, hi),
        is_lower(k, v, t, low),
        is_upper(k, v, t, high),
    ensures
        echoes(worth, odd, lo, high),
        echoes(worth, odd, hi, low),
{
}

proof fn lemma_packing_turns<K: Scheme2d>(
    k: K,
    worth: spec_fn(K::Real) -> real,
    dir: Dir,
    u: Conserved2d<K::Real>,
    v: Conserved2d<K::Real>,
    c: Conserved<K::Real>,
    x: K::Real,
    d: Conserved<K::Real>,
    y: K::Real,
)
    requires
        reflects(k, worth),
        is_image(worth, dir, u, v),
        is_packed(k, u, dir, c, x),
        is_packed(k, v, dir, d, y),
    ensures
        is_image1d(worth, c, d),
        worth(x) == worth(y),
{
    reveal(turns_images);
    match dir {
        Dir::Radial => {},
        Dir::Axial => {},
    }
}

proof fn lemma_unpacking_turns<K: Scheme2d>(
    k: K,
    worth: spec_fn(K::Real) -> real,
    dir: Dir,
    f: Conserved<K::Real>,
    g: Conserved<K::Real>,
    x: K::Real,
    y: K::Real,
    a: Conserved2d<K::Real>,
    b: Conserved2d<K::Real>,
)
    requires
        reflects(k, worth),
        echoes(worth, true, f.rho, g.rho),
        echoes(worth, false, f.mom, g.mom),
        echoes(worth, true, f.energy, g.energy),
        worth(x) == worth(y),
        is_unpacked(k, f, x, dir, a),
        is_unpacked(k, g, y, dir, b),
    ensures
        is_counterflow(worth, dir, a, b),
{
    reveal(turns_images);
    let v = worth(x);
    let (m, n) = (a.spec_transverse(dir), b.spec_transverse(dir));
    lemma_negates(worth(f.rho), v);
    assert(worth(n) == 0real - worth(m));
    lemma_negates(v, worth(m));
    match dir {
        Dir::Radial => {},
        Dir::Axial => {},
    }
}

proof fn lemma_flux_turns<K: Scheme2d>(
    k: K,
    worth: spec_fn(K::Real) -> real,
    dir: Dir,
    u: Conserved2d<K::Real>,
    v: Conserved2d<K::Real>,
    f: Conserved2d<K::Real>,
    g: Conserved2d<K::Real>,
)
    requires
        reflects(k, worth),
        is_image(worth, dir, u, v),
        is_dir_flux(k, u, dir, f),
        is_dir_flux(k, v, dir, g),
    ensures
        is_counterflow(worth, dir, f, g),
{
    let (c, x, a) = choose|c: Conserved<K::Real>, x: K::Real, a: Conserved<K::Real>|
        {
            &&& #[trigger] is_packed(k, u, dir, c, x)
            &&& #[trigger] call_ensures(K::flux, (&k, c), a)
            &&& is_unpacked(k, a, x, dir, f)
        };
    let (d, y, b) = choose|c: Conserved<K::Real>, x: K::Real, a: Conserved<K::Real>|
        {
            &&& #[trigger] is_packed(k, v, dir, c, x)
            &&& #[trigger] call_ensures(K::flux, (&k, c), a)
            &&& is_unpacked(k, a, x, dir, g)
        };
    lemma_packing_turns(k, worth, dir, u, v, c, x, d, y);
    assert(echoes(worth, true, a.rho, b.rho) && echoes(worth, false, a.mom, b.mom) && echoes(
        worth,
        true,
        a.energy,
        b.energy,
    )) by {
        reveal(turns_images);
    }
    lemma_unpacking_turns(k, worth, dir, a, b, x, y, f, g);
}

/// A weighted difference of counterflows, in turned order, is the turned difference.
proof fn lemma_difference_turns<K: Scheme2d>(
    k: K,
    worth: spec_fn(K::Real) -> real,
    odd: bool,
    lower: K::Real,
    upper: K::Real,
    lo: K::Real,
    hi: K::Real,
    low: K::Real,
    high: K::Real,
    d: K::Real,
    e: K::Real,
)
    requires
        is_exact_in(k, worth),
        echoes(worth, odd, lo, high),
        echoes(worth, odd, hi, low),
        is_weighted_difference(k, lower, lo, upper, hi, d),
        is_weighted_difference(k, upper, low, lower, high, e),
    ensures
        echoes(worth, !odd, d, e),
{
    lemma_negates(worth(lower), worth(lo));
    lemma_negates(worth(upper), worth(hi));
}

proof fn lemma_push_turns<K: Scheme2d>(
    k: K,
    worth: spec_fn(K::Real) -> real,
    metric: Metric<K::Real>,
    cell: Conserved2d<K::Real>,
    image: Conserved2d<K::Real>,
    a: Conserved2d<K::Real>,
    b: Conserved2d<K::Real>,
    d: Conserved2d<K::Real>,
    e: Conserved2d<K::Real>,
)
    requires
        reflects(k, worth),
        is_image(worth, Dir::Radial, cell, image),
        is_image(worth, Dir::Radial, a, b),
        is_pushed(k, Dir::Radial, metric, cell, a, d),
        is_pushed(k, Dir::Radial, turned(metric), image, b, e),
    ensures
        is_image(worth, Dir::Radial, d, e),
{
    let dir = Dir::Radial;
    let (p, s) = choose|p: K::Real, s: K::Real|
        {
            &&& #[trigger] is_pressure(k, cell, dir, p)
            &&& #[trigger] is_geometric_source(k, metric, p, s)
            &&& call_ensures(K::plus, (&k, a.mom_r, s), d.mom_r)
            &&& d == (Conserved2d { mom_r: d.mom_r, ..a })
        };
    let (q, t) = choose|p: K::Real, s: K::Real|
        {
            &&& #[trigger] is_pressure(k, image, dir, p)
            &&& #[trigger] is_geometric_source(k, turned(metric), p, s)
            &&& call_ensures(K::plus, (&k, b.mom_r, s), e.mom_r)
            &&& e == (Conserved2d { mom_r: e.mom_r, ..b })
        };
    let (c, x) = choose|c: Conserved<K::Real>, v: K::Real| #[trigger]
        is_packed(k, cell, dir, c, v) && call_ensures(K::pressure, (&k, c), p);
    let (f, y) = choose|c: Conserved<K::Real>, v: K::Real| #[trigger]
        is_packed(k, image, dir, c, v) && call_ensures(K::pressure, (&k, c), q);
    lemma_packing_turns(k, worth, dir, cell, image, c, x, f, y);
    assert(worth(p) == worth(q)) by {
        reveal(turns_images);
    }
    assert(is_weighted_difference(k, metric.upper, p, metric.lower, p, s));
    assert(is_weighted_difference(k, metric.lower, q, metric.upper, q, t));
    assert(worth(t) == 0real - worth(s));
}

proof fn lemma_drive_turns<K: Scheme2d>(
    k: K,
    worth: spec_fn(K::Real) -> real,
    dir: Dir,
    metric: Metric<K::Real>,
    geometric: bool,
    cell: Conserved2d<K::Real>,
    image: Conserved2d<K::Real>,
    lo: Conserved2d<K::Real>,
    hi: Conserved2d<K::Real>,
    low: Conserved2d<K::Real>,
    high: Conserved2d<K::Real>,
    d: Conserved2d<K::Real>,
    e: Conserved2d<K::Real>,
)
    requires
        reflects(k, worth),
        geometric ==> dir == Dir::Radial,
        is_image(worth, dir, cell, image),
        is_image(worth, dir, lo, high),
        is_image(worth, dir, hi, low),
        is_half_step_drive(k, dir, cell, lo, hi, metric, geometric, d),
        is_half_step_drive(k, dir, image, low, high, turned(metric), geometric, e),
    ensures
        is_image(worth, dir, d, e),
{
    let (fl, fr, a) = choose|
        fl: Conserved2d<K::Real>,
        fr: Conserved2d<K::Real>,
        bare: Conserved2d<K::Real>,
    |
        {
            &&& #[trigger] is_dir_flux(k, lo, dir, fl)
            &&& #[trigger] is_dir_flux(k, hi, dir, fr)
            &&& #[trigger] is_flux_difference(k, metric.lower, fl, metric.upper, fr, bare)
            &&& if geometric {
                is_pushed(k, dir, metric, cell, bare, d)
            } else {
                d == bare
            }
        };
    let (gl, gr, b) = choose|
        fl: Conserved2d<K::Real>,
        fr: Conserved2d<K::Real>,
        bare: Conserved2d<K::Real>,
    |
        {
            &&& #[trigger] is_dir_flux(k, low, dir, fl)
            &&& #[trigger] is_dir_flux(k, high, dir, fr)
            &&& #[trigger] is_flux_difference(k, metric.upper, fl, metric.lower, fr, bare)
            &&& if geometric {
                is_pushed(k, dir, turned(metric), image, bare, e)
            } else {
                e == bare
            }
        };
    lemma_flux_turns(k, worth, dir, lo, high, fl, gr);
    lemma_flux_turns(k, worth, dir, hi, low, fr, gl);
    let (m, n) = (metric.lower, metric.upper);
    let (ax, rad) = (dir == Dir::Axial, dir == Dir::Radial);
    lemma_difference_turns(
        k,
        worth,
        true,
        m,
        n,
        fl.rho,
        fr.rho,
        gl.rho,
        gr.rho,
        a.rho,
        b.rho,
    );
    lemma_difference_turns(
        k,
        worth,
        ax,
        m,
        n,
        fl.mom_r,
        fr.mom_r,
        gl.mom_r,
        gr.mom_r,
        a.mom_r,
        b.mom_r,
    );
    lemma_difference_turns(
        k,
        worth,
        rad,
        m,
        n,
        fl.mom_x,
        fr.mom_x,
        gl.mom_x,
        gr.mom_x,
        a.mom_x,
        b.mom_x,
    );
    lemma_difference_turns(
        k,
        worth,
        true,
        m,
        n,
        fl.energy,
        fr.energy,
        gl.energy,
        gr.energy,
        a.energy,
        b.energy,
    );
    assert(ax == !rad);
    assert(is_image(worth, dir, a, b));
    if geometric {
        lemma_push_turns(k, worth, metric, cell, image, a, b, d, e);
    }
}

proof fn lemma_move_turns<K: Scheme2d>(
    k: K,
    worth: spec_fn(K::Real) -> real,
    odd: bool,
    weight: K::Real,
    other: K::Real,
    u: K::Real,
    v: K::Real,
    d: K::Real,
    e: K::Real,
    x: K::Real,
    y: K::Real,
)
    requires
        is_exact_in(k, worth),
        worth(weight) == worth(other),
        echoes(worth, odd, u, v),
        echoes(worth, odd, d, e),
        is_moved(k, weight, u, d, x),
        is_moved(k, other, v, e, y),
    ensures
        echoes(worth, odd, x, y),
{
    lemma_negates(worth(weight), worth(d));
}

/// One face of a cell, evolved, and its counterpart on the image.
proof fn lemma_evolution_turns<K: Scheme2d>(
    k: K,
    worth: spec_fn(K::Real) -> real,
    dir: Dir,
    weight: K::Real,
    other: K::Real,
    u: Conserved2d<K::Real>,
    v: Conserved2d<K::Real>,
    d: Conserved2d<K::Real>,
    e: Conserved2d<K::Real>,
    x: Conserved2d<K::Real>,
    y: Conserved2d<K::Real>,
)
    requires
        is_exact_in(k, worth),
        worth(weight) == worth(other),
        is_image(worth, dir, u, v),
        is_image(worth, dir, d, e),
        is_moved(k, weight, u.rho, d.rho, x.rho),
        is_moved(k, weight, u.mom_r, d.mom_r, x.mom_r),
        is_moved(k, weight, u.mom_x, d.mom_x, x.mom_x),
        is_moved(k, weight, u.energy, d.energy, x.energy),
        is_moved(k, other, v.rho, e.rho, y.rho),
        is_moved(k, other, v.mom_r, e.mom_r, y.mom_r),
        is_moved(k, other, v.mom_x, e.mom_x, y.mom_x),
        is_moved(k, other, v.energy, e.energy, y.energy),
    ensures
        is_image(worth, dir, x, y),
{
    let (ax, rad) = (dir == Dir::Axial, dir == Dir::Radial);
    lemma_move_turns(k, worth, false, weight, other, u.rho, v.rho, d.rho, e.rho, x.rho, y.rho);
    lemma_move_turns(
        k,
        worth,
        rad,
        weight,
        other,
        u.mom_r,
        v.mom_r,
        d.mom_r,
        e.mom_r,
        x.mom_r,
        y.mom_r,
    );
    lemma_move_turns(
        k,
        worth,
        ax,
        weight,
        other,
        u.mom_x,
        v.mom_x,
        d.mom_x,
        e.mom_x,
        x.mom_x,
        y.mom_x,
    );
    lemma_move_turns(
        k,
        worth,
        false,
        weight,
        other,
        u.energy,
        v.energy,
        d.energy,
        e.energy,
        x.energy,
        y.energy,
    );
}

/// The reconstruction of images is the image of the reconstruction.
proof fn lemma_weighted_faces_turn<K: Scheme2d>(
    k: K,
    worth: spec_fn(K::Real) -> real,
    dir: Dir,
    weight: K::Real,
    other: K::Real,
    cells: (Conserved2d<K::Real>, Conserved2d<K::Real>, Conserved2d<K::Real>),
    images: (Conserved2d<K::Real>, Conserved2d<K::Real>, Conserved2d<K::Real>),
    metric: Metric<K::Real>,
    geometric: bool,
    f: Faces<K::Real>,
    g: Faces<K::Real>,
)
    requires
        reflects(k, worth),
        geometric ==> dir == Dir::Radial,
        worth(weight) == worth(other),
        is_image(worth, dir, cells.0, images.0),
        is_image(worth, dir, cells.1, images.1),
        is_image(worth, dir, cells.2, images.2),
        are_weighted_faces(k, weight, dir, cells.0, cells.1, cells.2, metric, geometric, f),
        are_weighted_faces(
            k,
            other,
            dir,
            images.2,
            images.1,
            images.0,
            turned(metric),
            geometric,
            g,
        ),
    ensures
        is_image(worth, dir, f.left, g.right),
        is_image(worth, dir, f.right, g.left),
{
    let (a, b, c) = cells;
    let (x, y, z) = images;
    let (s, lo, hi, d) = choose|
        s: Conserved2d<K::Real>,
        lo: Conserved2d<K::Real>,
        hi: Conserved2d<K::Real>,
        d: Conserved2d<K::Real>,
    |
        {
            &&& is_slope2d(k, a, b, c, s)
            &&& #[trigger] are_sides2d(k, b, s, lo, hi)
            &&& #[trigger] is_half_step_drive(k, dir, b, lo, hi, metric, geometric, d)
            &&& are_evolved2d(k, weight, lo, hi, d, f)
        };
    let (t, low, high, e) = choose|
        s: Conserved2d<K::Real>,
        lo: Conserved2d<K::Real>,
        hi: Conserved2d<K::Real>,
        d: Conserved2d<K::Real>,
    |
        {
            &&& is_slope2d(k, z, y, x, s)
            &&& #[trigger] are_sides2d(k, y, s, lo, hi)
            &&& #[trigger] is_half_step_drive(k, dir, y, lo, hi, turned(metric), geometric, d)
            &&& are_evolved2d(k, other, lo, hi, d, g)
        };
    let (ax, rad) = (dir == Dir::Axial, dir == Dir::Radial);
    lemma_slope_turns(
        k,
        worth,
        false,
        (a.rho, b.rho, c.rho),
        (x.rho, y.rho, z.rho),
        s.rho,
        t.rho,
    );
    lemma_slope_turns(
        k,
        worth,
        rad,
        (a.mom_r, b.mom_r, c.mom_r),
        (x.mom_r, y.mom_r, z.mom_r),
        s.mom_r,
        t.mom_r,
    );
    lemma_slope_turns(
        k,
        worth,
        ax,
        (a.mom_x, b.mom_x, c.mom_x),
        (x.mom_x, y.mom_x, z.mom_x),
        s.mom_x,
        t.mom_x,
    );
    lemma_slope_turns(
        k,
        worth,
        false,
        (a.energy, b.energy, c.energy),
        (x.energy, y.energy, z.energy),
        s.energy,
        t.energy,
    );
    lemma_sides_turn(
        k,
        worth,
        false,
        b.rho,
        y.rho,
        s.rho,
        t.rho,
        lo.rho,
        hi.rho,
        low.rho,
        high.rho,
    );
    lemma_sides_turn(
        k,
        worth,
        rad,
        b.mom_r,
        y.mom_r,
        s.mom_r,
        t.mom_r,
        lo.mom_r,
        hi.mom_r,
        low.mom_r,
        high.mom_r,
    );
    lemma_sides_turn(
        k,
        worth,
        ax,
        b.mom_x,
        y.mom_x,
        s.mom_x,
        t.mom_x,
        lo.mom_x,
        hi.mom_x,
        low.mom_x,
        high.mom_x,
    );
    lemma_sides_turn(
        k,
        worth,
        false,
        b.energy,
        y.energy,
        s.energy,
        t.energy,
        lo.energy,
        hi.energy,
        low.energy,
        high.energy,
    );
    lemma_drive_turns(k, worth, dir, metric, geometric, b, y, lo, hi, low, high, d, e);
    lemma_evolution_turns(k, worth, dir, weight, other, lo, high, d, e, f.left, g.right);
    lemma_evolution_turns(k, worth, dir, weight, other, hi, low, d, e, f.right, g.left);
}

/// The faces of a cell and those of its image, reconstructed from images in turned
/// order over a turned metric, are images of each other.
pub proof fn law_wall_mirrors_the_faces<K: Scheme2d>(
    k: K,
    worth: spec_fn(K::Real) -> real,
    dir: Dir,
    dt: K::Real,
    cells: (Conserved2d<K::Real>, Conserved2d<K::Real>, Conserved2d<K::Real>),
    images: (Conserved2d<K::Real>, Conserved2d<K::Real>, Conserved2d<K::Real>),
    metric: Metric<K::Real>,
    geometric: bool,
    f: Faces<K::Real>,
    g: Faces<K::Real>,
)
    requires
        reflects(k, worth),
        geometric ==> dir == Dir::Radial,
        is_image(worth, dir, cells.0, images.0),
        is_image(worth, dir, cells.1, images.1),
        is_image(worth, dir, cells.2, images.2),
        are_cell_faces(k, dir, dt, cells.0, cells.1, cells.2, metric, geometric, f),
        are_cell_faces(k, dir, dt, images.2, images.1, images.0, turned(metric), geometric, g),
    ensures
        is_image(worth, dir, f.left, g.right),
        is_image(worth, dir, f.right, g.left),
{
    let weight = choose|half: K::Real| #[trigger]
        call_ensures(K::half_weight, (&k, dt, metric.volume), half) && are_weighted_faces(
            k,
            half,
            dir,
            cells.0,
            cells.1,
            cells.2,
            metric,
            geometric,
            f,
        );
    let other = choose|half: K::Real| #[trigger]
        call_ensures(K::half_weight, (&k, dt, metric.volume), half) && are_weighted_faces(
            k,
            half,
            dir,
            images.2,
            images.1,
            images.0,
            turned(metric),
            geometric,
            g,
        );
    assert(worth(weight) == worth(other)) by {
        reveal(turns_images);
    }
    lemma_weighted_faces_turn(
        k,
        worth,
        dir,
        weight,
        other,
        cells,
        images,
        metric,
        geometric,
        f,
        g,
    );
}

/// The outermost waves between images leave alike, one each way, and each faster than
/// the gas that it leaves into.
proof fn lemma_waves_leave_alike<K: Scheme2d>(
    k: K,
    worth: spec_fn(K::Real) -> real,
    c: Conserved<K::Real>,
    d: Conserved<K::Real>,
    waves: (K::Real, K::Real),
) -> (speeds: (K::Real, K::Real))
    requires
        reflects(k, worth),
        is_image1d(worth, c, d),
        is_gas(k, worth, c),
        is_gas(k, worth, d),
        are_waves(k, c, d, waves),
    ensures
        worth(waves.0) < 0real,
        worth(waves.1) == 0real - worth(waves.0),
        call_ensures(K::velocity, (&k, c), speeds.0),
        call_ensures(K::velocity, (&k, d), speeds.1),
        worth(waves.0) < worth(speeds.0),
        worth(waves.1) > worth(speeds.1),
{
    reveal(rests_between_images);
    let (roe, mean) = choose|roe: (K::Real, K::Real), mean: K::Real|
        {
            &&& #[trigger] call_ensures(K::roe, (&k, c, d), roe)
            &&& #[trigger] is_mean_sound(k, roe.1, mean)
            &&& is_left_wave(k, c, (roe.0, mean), waves.0)
            &&& is_right_wave(k, d, (roe.0, mean), waves.1)
        };
    assert(worth(mean) > 0real);
    let (v, s, own, other) = choose|v: K::Real, s: K::Real, own: K::Real, other: K::Real|
        {
            &&& #[trigger] call_ensures(K::velocity, (&k, c), v)
            &&& #[trigger] call_ensures(K::sound_speed, (&k, c), s)
            &&& #[trigger] call_ensures(K::minus, (&k, v, s), own)
            &&& #[trigger] call_ensures(K::minus, (&k, roe.0, mean), other)
            &&& call_ensures(K::smaller, (&k, own, other), waves.0)
        };
    let (w, t, mine, theirs) = choose|v: K::Real, s: K::Real, own: K::Real, other: K::Real|
        {
            &&& #[trigger] call_ensures(K::velocity, (&k, d), v)
            &&& #[trigger] call_ensures(K::sound_speed, (&k, d), s)
            &&& #[trigger] call_ensures(K::plus, (&k, v, s), own)
            &&& #[trigger] call_ensures(K::plus, (&k, roe.0, mean), other)
            &&& call_ensures(K::larger, (&k, own, other), waves.1)
        };
    assert(worth(w) == 0real - worth(v) && worth(t) == worth(s));
    (v, w)
}

/// The flux of a star state at a contact at rest carries no mass and no energy.
proof fn lemma_star_flux_rests<K: Scheme2d>(
    k: K,
    worth: spec_fn(K::Real) -> real,
    u: Conserved<K::Real>,
    s: K::Real,
    s_star: K::Real,
    v: K::Real,
    f: Conserved<K::Real>,
)
    requires
        reflects(k, worth),
        is_gas(k, worth, u),
        call_ensures(K::velocity, (&k, u), v),
        worth(s) != 0real,
        worth(s) != worth(v),
        worth(s_star) == 0real,
        is_star_flux(k, u, s, s_star, f),
    ensures
        worth(f.rho) == 0real,
        worth(f.energy) == 0real,
{
    let (own, star, jump) = choose|
        own: Conserved<K::Real>,
        star: Conserved<K::Real>,
        jump: Conserved<K::Real>,
    |
        {
            &&& #[trigger] call_ensures(K::flux, (&k, u), own)
            &&& #[trigger] call_ensures(K::star, (&k, u, s, s_star), star)
            &&& #[trigger] is_difference(k, star, u, jump)
            &&& is_moved(k, s, own.rho, jump.rho, f.rho)
            &&& is_moved(k, s, own.energy, jump.energy, f.energy)
        };
    lemma_distributes(worth(star.rho), worth(u.rho), worth(s));
    lemma_distributes(worth(star.energy), worth(u.energy), worth(s));
    reveal(rests_between_images);
}

proof fn lemma_hllc_rests<K: Scheme2d>(
    k: K,
    worth: spec_fn(K::Real) -> real,
    c: Conserved<K::Real>,
    d: Conserved<K::Real>,
    f: Conserved<K::Real>,
)
    requires
        reflects(k, worth),
        is_image1d(worth, c, d),
        is_gas(k, worth, c),
        is_gas(k, worth, d),
        is_hllc(k, c, d, f),
    ensures
        worth(f.rho) == 0real,
        worth(f.energy) == 0real,
{
    let waves = choose|waves: (K::Real, K::Real)| #[trigger]
        are_waves(k, c, d, waves) && is_flux_of_waves(k, c, d, waves, f);
    let (v, w) = lemma_waves_leave_alike(k, worth, c, d, waves);
    assert(!call_ensures(K::is_forward, (&k, waves.0), true) && !call_ensures(
        K::is_backward,
        (&k, waves.1),
        true,
    )) by {
        reveal(rests_between_images);
    }
    let s_star = choose|s_star: K::Real| #[trigger]
        call_ensures(K::contact, (&k, c, d, waves.0, waves.1), s_star) && {
            ||| call_ensures(K::is_forward, (&k, s_star), true) && is_star_flux(
                k,
                c,
                waves.0,
                s_star,
                f,
            )
            ||| call_ensures(K::is_forward, (&k, s_star), false) && is_star_flux(
                k,
                d,
                waves.1,
                s_star,
                f,
            )
        };
    assert(worth(s_star) == 0real) by {
        reveal(rests_between_images);
    }
    if is_star_flux(k, c, waves.0, s_star, f) {
        lemma_star_flux_rests(k, worth, c, waves.0, s_star, v, f);
    } else {
        lemma_star_flux_rests(k, worth, d, waves.1, s_star, w, f);
    }
}

/// The flux between a gas and its image carries no mass, no energy and nothing
/// across the line: it only pushes.
pub proof fn law_wall_lets_nothing_through<K: Scheme2d>(
    k: K,
    worth: spec_fn(K::Real) -> real,
    dir: Dir,
    u: Conserved2d<K::Real>,
    v: Conserved2d<K::Real>,
    f: Conserved2d<K::Real>,
)
    requires
        reflects(k, worth),
        is_image(worth, dir, u, v),
        is_gas2d(k, worth, dir, u),
        is_gas2d(k, worth, dir, v),
        is_dir_hllc(k, u, v, dir, f),
    ensures
        is_at_rest(worth, dir, f),
{
    let (c, x, d, y, g, up) = choose|
        cl: Conserved<K::Real>,
        vl: K::Real,
        cr: Conserved<K::Real>,
        vr: K::Real,
        g: Conserved<K::Real>,
        up: bool,
    |
        {
            &&& #[trigger] is_packed(k, u, dir, cl, vl)
            &&& #[trigger] is_packed(k, v, dir, cr, vr)
            &&& #[trigger] is_hllc(k, cl, cr, g)
            &&& #[trigger] call_ensures(K::flows_up, (&k, g.rho), up)
            &&& is_unpacked(
                k,
                g,
                if up {
                    vl
                } else {
                    vr
                },
                dir,
                f,
            )
        };
    lemma_packing_turns(k, worth, dir, u, v, c, x, d, y);
    assert(is_gas(k, worth, c) && is_gas(k, worth, d)) by {
        reveal(is_gas2d);
    }
    lemma_hllc_rests(k, worth, c, d, g);
    let z = if up {
        x
    } else {
        y
    };
    assert(is_unpacked(k, g, z, dir, f));
    assert(0real * worth(z) == 0real);
    assert(worth(z) * 0real == 0real);
    reveal(turns_images);
    assert(worth(f.spec_transverse(dir)) == worth(g.rho) * worth(z));
}

/// The image of a cell is its mirror image.
pub proof fn lemma_mirror_is_image<K: Scheme2d>(
    k: K,
    worth: spec_fn(K::Real) -> real,
    dir: Dir,
    u: Conserved2d<K::Real>,
    v: Conserved2d<K::Real>,
)
    requires
        reflects(k, worth),
        is_mirror(k, dir, true, u, v),
    ensures
        is_image(worth, dir, u, v),
        is_image(worth, dir, v, u),
{
    reveal(turns_images);
    match dir {
        Dir::Radial => {},
        Dir::Axial => {},
    }
}

} // verus!

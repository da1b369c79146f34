//! Where a side of a Riemann problem is shocked and where it expands.
//!
//! A side that the pressure between the waves is above is shocked: it is as it was ahead
//! of the shock, and at that pressure and velocity behind it. A side that the pressure is
//! not above expands: it is as it was ahead of the head of a fan, at that pressure and
//! velocity behind the tail, and in the fan between the two.
use crate::euler1d::Primitive;
use crate::validate::{is_fan_sample, is_shock_sample, is_side_sample, is_wave, StarState, Waves};
use vstd::prelude::*;

verus! {

/// Pressures and speeds are compared by worth, and a compression is the ratio of the two
/// pressures, that of a shock above one.
#[verifier::opaque]
pub open spec fn compresses_exactly<K: Waves>(k: K, worth: spec_fn(K::Real) -> real) -> bool {
    &&& forall|a: K::Real, b: K::Real, g: bool| #[trigger]
        call_ensures(K::is_at_most, (&k, a, b), g) ==> g == (worth(a) <= worth(b))
    &&& forall|p: K::Real, side: Primitive<K::Real>, c: K::Real| #[trigger]
        call_ensures(K::compression, (&k, p, side), c) && worth(side.p) > 0real ==> (worth(c)
            > 1real <==> worth(p) > worth(side.p))
    &&& forall|c: K::Real, g: bool| #[trigger]
        call_ensures(K::is_compressive, (&k, c), g) ==> g == (worth(c) > 1real)
    &&& forall|p: K::Real, side: Primitive<K::Real>, g: bool| #[trigger]
        call_ensures(K::is_shock, (&k, p, side), g) ==> g == (worth(p) > worth(side.p))
}

/// A side below the pressure between the waves is shocked: ahead of the shock it is
/// undisturbed, and behind it at the pressure and the velocity between the waves.
pub proof fn law_compressed_side_is_shocked<K: Waves>(
    k: K,
    side: Primitive<K::Real>,
    star: StarState<K::Real>,
    s: K::Real,
    w: Primitive<K::Real>,
    worth: spec_fn(K::Real) -> real,
) -> (r: (K::Real, K::Real))
    requires
        compresses_exactly(k, worth),
        is_side_sample(k, side, star, s, w),
        0real < worth(side.p) < worth(star.p),
    ensures
        call_ensures(K::compression, (&k, star.p, side), r.0),
        call_ensures(K::shock_speed, (&k, side, r.0), r.1),
        worth(s) <= worth(r.1) ==> w == side,
        worth(s) > worth(r.1) ==> (w.u, w.p) == (star.u, star.p) && call_ensures(
            K::shocked_density,
            (&k, side, r.0),
            w.rho,
        ),
{
    reveal(compresses_exactly);
    let c = choose|c: K::Real|
        {
            &&& #[trigger] call_ensures(K::compression, (&k, star.p, side), c)
            &&& {
                ||| call_ensures(K::is_compressive, (&k, c), true) && is_shock_sample(
                    k,
                    side,
                    star,
                    c,
                    s,
                    w,
                )
                ||| call_ensures(K::is_compressive, (&k, c), false) && is_fan_sample(
                    k,
                    side,
                    star,
                    c,
                    s,
                    w,
                )
            }
        };
    assert(is_shock_sample(k, side, star, c, s, w));
    let speed = choose|speed: K::Real|
        {
            &&& #[trigger] call_ensures(K::shock_speed, (&k, side, c), speed)
            &&& {
                ||| call_ensures(K::is_at_most, (&k, s, speed), true) && w == side
                ||| call_ensures(K::is_at_most, (&k, s, speed), false) && call_ensures(
                    K::shocked_density,
                    (&k, side, c),
                    w.rho,
                ) && w.u == star.u && w.p == star.p
            }
        };
    (c, speed)
}

/// A side at or above the pressure between the waves expands: ahead of the head it is
/// undisturbed, behind the tail it is at the pressure and the velocity between the waves,
/// and between the two it is in the fan.
pub proof fn law_expanded_side_is_in_a_fan<K: Waves>(
    k: K,
    side: Primitive<K::Real>,
    star: StarState<K::Real>,
    s: K::Real,
    w: Primitive<K::Real>,
    worth: spec_fn(K::Real) -> real,
) -> (r: (K::Real, K::Real, K::Real))
    requires
        compresses_exactly(k, worth),
        is_side_sample(k, side, star, s, w),
        0real < worth(side.p),
        worth(star.p) <= worth(side.p),
    ensures
        call_ensures(K::compression, (&k, star.p, side), r.0),
        call_ensures(K::head_speed, (&k, side), r.1),
        call_ensures(K::tail_speed, (&k, side, star.u, r.0), r.2),
        worth(s) <= worth(r.1) ==> w == side,
        worth(r.1) < worth(s) && worth(r.2) <= worth(s) ==> (w.u, w.p) == (star.u, star.p)
            && call_ensures(K::expanded_density, (&k, side, r.0), w.rho),
        worth(r.1) < worth(s) < worth(r.2) ==> call_ensures(K::fan, (&k, side, s), w),
{
    reveal(compresses_exactly);
    let c = choose|c: K::Real|
        {
            &&& #[trigger] call_ensures(K::compression, (&k, star.p, side), c)
            &&& {
                ||| call_ensures(K::is_compressive, (&k, c), true) && is_shock_sample(
                    k,
                    side,
                    star,
                    c,
                    s,
                    w,
                )
                ||| call_ensures(K::is_compressive, (&k, c), false) && is_fan_sample(
                    k,
                    side,
                    star,
                    c,
                    s,
                    w,
                )
            }
        };
    assert(is_fan_sample(k, side, star, c, s, w));
    let (head, tail) = choose|head: K::Real, tail: K::Real|
        {
            &&& #[trigger] call_ensures(K::head_speed, (&k, side), head)
            &&& #[trigger] call_ensures(K::tail_speed, (&k, side, star.u, c), tail)
            &&& {
                ||| call_ensures(K::is_at_most, (&k, s, head), true) && w == side
                ||| call_ensures(K::is_at_most, (&k, s, head), false) && call_ensures(
                    K::is_at_most,
                    (&k, tail, s),
                    true,
                ) && call_ensures(K::expanded_density, (&k, side, c), w.rho) && w.u == star.u
                    && w.p == star.p
                ||| call_ensures(K::is_at_most, (&k, s, head), false) && call_ensures(
                    K::is_at_most,
                    (&k, tail, s),
                    false,
                ) && call_ensures(K::fan, (&k, side, s), w)
            }
        };
    (c, head, tail)
}

/// The velocity jump that a pressure makes in a side is that of a shock where the pressure
/// is above the side's, and that of a rarefaction where it is not.
pub proof fn law_jump_is_that_of_its_wave<K: Waves>(
    k: K,
    p: K::Real,
    side: Primitive<K::Real>,
    f: (K::Real, K::Real),
    worth: spec_fn(K::Real) -> real,
)
    requires
        compresses_exactly(k, worth),
        is_wave(k, p, side, f),
    ensures
        worth(p) > worth(side.p) ==> call_ensures(K::shock, (&k, p, side), f),
        worth(p) <= worth(side.p) ==> call_ensures(K::rarefaction, (&k, p, side), f),
{
    reveal(compresses_exactly);
}

} // verus!

//! How much of a beam reaches the front of a wave.
//!
//! The fraction that is judged is that of the light at the first cell that absorbs
//! strongly, of the light that entered. Grey gas absorbs once it is hot and not before. A
//! spark is lit where the peak of its pulse is above the threshold.
use crate::avalanche::lemma_threshold_is_bracketed;
use crate::breakdown0d::{is_model, AirBreakdown, Kinetics};
use crate::breakdown_case::Setup;
use crate::euler1d::Primitive;
use crate::lsd::{
    is_absorption, is_absorption_front, is_fraction, is_fraction_known, is_fraction_there,
    is_looked_at, is_march, is_profile, Absorption, Beam1d, Column1d,
};
use crate::lsd2d::{is_axis_fraction, is_pencil, Beam2d, Column2d};
use crate::lsd_case::{is_spark_at, LsdCase, LsdParams, Spark};
use crate::shots::strength_lights;
use vstd::prelude::*;

verus! {

/// The fraction of the beam that is judged is that of the light at the first strongly
/// absorbing cell, of the light that entered; without such a cell it is the whole.
pub proof fn law_fraction_is_of_the_light_at_the_front<K: Beam1d>(
    pre: Column1d<K>,
    post: Column1d<K>,
    f: K::Real,
    worth: spec_fn(K::Real) -> real,
) -> (r: (Column1d<K>, Seq<K::Real>, K::Real, Seq<K::Real>, int))
    requires
        is_fraction(pre, post, Ok(f)),
        forall|mid: Column1d<K>, alpha: Seq<K::Real>, top: K::Real| #[trigger]
            is_looked_at(pre, mid, alpha, top) ==> {
                &&& forall|one: K::Real| #[trigger]
                    call_ensures(K::one, (&mid.hydro.scheme,), one) ==> worth(one) == 1real
                &&& forall|a: K::Real, b: K::Real, c: K::Real| #[trigger]
                    call_ensures(K::ratio, (&mid.hydro.scheme, a, b), c) ==> worth(c) * worth(b)
                        == worth(a)
            },
    ensures
        is_looked_at(pre, r.0, r.1, r.2),
        worth(f) == 1real || {
            &&& 0 <= r.4 < r.1.len()
            &&& call_ensures(K::is_strong_absorber, (&r.0.hydro.scheme, r.1[r.4], r.2), true)
            &&& forall|l: int|
                0 <= l < r.4 ==> call_ensures(
                    K::is_strong_absorber,
                    (&r.0.hydro.scheme, #[trigger] r.1[l], r.2),
                    false,
                )
            &&& is_profile(r.0, post, r.3)
            &&& worth(f) * worth(r.0.incident) == worth(r.3[r.4])
        },
{
    let (mid, alpha, top) = choose|mid: Column1d<K>, alpha: Seq<K::Real>, top: K::Real| #[trigger]
        is_looked_at(pre, mid, alpha, top) && is_fraction_known(mid, alpha, top, post, Ok(f));
    if worth(f) == 1real {
        (mid, alpha, top, alpha, 0)
    } else {
        let i = choose|i: int| #[trigger]
            is_absorption_front(mid.hydro.scheme, alpha, top, i) && is_fraction_there(
                mid,
                i,
                post,
                f,
            );
        let profile = choose|profile: Seq<K::Real>| #[trigger]
            is_profile(mid, post, profile) && call_ensures(
                K::ratio,
                (&mid.hydro.scheme, profile[i], mid.incident),
                f,
            );
        assert forall|l: int| 0 <= l < i implies call_ensures(
            K::is_strong_absorber,
            (&mid.hydro.scheme, #[trigger] alpha[l], top),
            false,
        ) by {
            assert(alpha.subrange(0, i)[l] == alpha[l]);
        }
        (mid, alpha, top, profile, i)
    }
}

/// Light is not dimmed by cells that do not absorb: a beam has its intensity at entry up
/// to the first cell that does.
pub proof fn law_clear_cells_keep_the_beam<K: Beam1d>(
    k: K,
    incident: K::Real,
    alpha: Seq<K::Real>,
    profile: Seq<K::Real>,
    worth: spec_fn(K::Real) -> real,
    i: int,
)
    requires
        is_march(k, incident, alpha, profile),
        forall|s: K::Real, a: K::Real, t: K::Real| #[trigger]
            call_ensures(K::attenuate, (&k, s, a), t) && worth(a) == 0real ==> worth(t) == worth(s),
        forall|l: int| 0 <= l < i ==> worth(#[trigger] alpha[l]) == 0real,
        0 <= i < profile.len(),
    ensures
        worth(profile[i]) == worth(incident),
    decreases i,
{
    if i > 0 {
        law_clear_cells_keep_the_beam(k, incident, alpha, profile, worth, i - 1);
        assert(worth(alpha[i - 1]) == 0real);
        assert(call_ensures(K::attenuate, (&k, profile[i - 1], alpha[i - 1]), profile[i - 1 + 1]));
    }
}

/// Grey gas absorbs by its coefficient where its internal energy is above the one of
/// ignition, and not at all below.
pub proof fn law_grey_gas_absorbs_once_hot<K: Beam1d>(
    k: K,
    alpha: K::Real,
    e_ignite: K::Real,
    w: Primitive<K::Real>,
    a: K::Real,
    t: Option<K::Real>,
    worth: spec_fn(K::Real) -> real,
    energy: real,
)
    requires
        is_absorption(k, Absorption::GreyThreshold { alpha, e_ignite }, w, Ok((a, t))),
        forall|e: K::Real| #[trigger]
            call_ensures(K::internal_energy, (&k, w), e) ==> worth(e) == energy,
        forall|zero: K::Real| #[trigger] call_ensures(K::zero, (&k,), zero) ==> worth(zero) == 0real,
        forall|x: K::Real, y: K::Real, g: bool| #[trigger]
            call_ensures(K::exceeds, (&k, x, y), g) ==> g == (worth(x) > worth(y)),
    ensures
        worth(a) == if energy > worth(e_ignite) {
            worth(alpha)
        } else {
            0real
        },
        t is None,
{
}

/// On the axis of a wide wave the fraction is that of the light at the first strongly
/// absorbing cell of the axial pencil, of the light at its start.
pub proof fn law_axis_fraction_is_of_the_light_at_the_front<K: Beam2d>(
    c: Column2d<K>,
    alpha: Seq<K::Real>,
    top: K::Real,
    f: K::Real,
    worth: spec_fn(K::Real) -> real,
) -> (r: (Seq<K::Real>, int))
    requires
        is_axis_fraction(c, alpha, top, f),
        forall|one: K::Real| #[trigger]
            call_ensures(<K::Line as Beam1d>::one, (&c.line,), one) ==> worth(one) == 1real,
        forall|x: K::Real, y: K::Real, z: K::Real| #[trigger]
            call_ensures(<K::Line as Beam1d>::ratio, (&c.line, x, y), z) ==> worth(z) * worth(y)
                == worth(x),
    ensures
        worth(f) == 1real || {
            &&& 0 <= r.1 < alpha.len()
            &&& call_ensures(
                <K::Line as Beam1d>::is_strong_absorber,
                (&c.line, alpha[r.1], top),
                true,
            )
            &&& forall|l: int|
                0 <= l < r.1 ==> call_ensures(
                    <K::Line as Beam1d>::is_strong_absorber,
                    (&c.line, #[trigger] alpha[l], top),
                    false,
                )
            &&& is_pencil(c, 0, alpha, r.0)
            &&& worth(f) * worth(r.0[0]) == worth(r.0[r.1])
        },
{
    if worth(f) == 1real {
        (alpha, 0)
    } else {
        let (i, profile) = choose|i: int, profile: Seq<K::Real>|
            {
                &&& #[trigger] is_absorption_front(c.line, alpha, top, i)
                &&& #[trigger] is_pencil(c, 0, alpha, profile)
                &&& call_ensures(
                    <K::Line as Beam1d>::ratio,
                    (&c.line, profile[i], profile[0]),
                    f,
                )
            };
        assert forall|l: int| 0 <= l < i implies call_ensures(
            <K::Line as Beam1d>::is_strong_absorber,
            (&c.line, #[trigger] alpha[l], top),
            false,
        ) by {
            assert(alpha.subrange(0, i)[l] == alpha[l]);
        }
        (profile, i)
    }
}

/// A spark is lit where its peak is above the threshold of its own pulse and pressure: a
/// lit one is above some intensity no higher than the threshold, and an unlit one below
/// some intensity no lower.
pub proof fn law_threshold_parts_the_sparks<K: LsdCase>(
    k: K,
    p: LsdParams<K::Real>,
    i_peak: K::Real,
    spark: Spark<K::Real>,
    worth: spec_fn(K::Real) -> real,
) -> (r: (K::Real, K::Real))
    requires
        is_spark_at(k, p, i_peak, Ok(spark)),
        forall|kinetics: K::Kinetics, s: Setup<K::Real>, m: AirBreakdown<K::Kinetics>| #[trigger]
            is_model(kinetics, s.wavelength, s.gas, s.focus, s.temperature, Ok(m)) ==> {
                let g = m@.kinetics;
                &&& strength_lights(m@, p.fwhm, p.p0, p.ignition_steps, worth)
                &&& forall|x: K::Real, y: K::Real, z: K::Real| #[trigger]
                    call_ensures(K::Kinetics::geometric_mean, (&g, x, y), z) && 0real <= worth(x)
                        <= worth(y) ==> worth(x) <= worth(z) <= worth(y)
                &&& forall|x: K::Real, y: K::Real|
                    #![trigger call_ensures(K::Kinetics::bracket_floor, (&g,), x), call_ensures(K::Kinetics::bracket_ceiling, (&g,), y)]
                    call_ensures(K::Kinetics::bracket_floor, (&g,), x) && call_ensures(
                        K::Kinetics::bracket_ceiling,
                        (&g,),
                        y,
                    ) ==> 0real <= worth(x) <= worth(y)
            },
    ensures
        worth(r.0) <= worth(spark.i_threshold) <= worth(r.1),
        spark.i_peak == i_peak,
        spark.ignited ==> worth(i_peak) > worth(r.0),
        !spark.ignited ==> worth(i_peak) < worth(r.1),
{
    let (kinetics, s) = choose|kinetics: K::Kinetics, s: Setup<K::Real>|
        {
            &&& #[trigger] call_ensures(K::kinetics, (&k,), kinetics)
            &&& #[trigger] call_ensures(K::setup, (&k, p.wavelength), s)
            &&& exists|m: AirBreakdown<K::Kinetics>| #[trigger]
                is_model(kinetics, s.wavelength, s.gas, s.focus, s.temperature, Ok(m))
                    && m@.is_threshold(p.fwhm, p.p0, p.ignition_steps, Ok(spark.i_threshold))
                    && m@.is_breakdown(i_peak, p.fwhm, p.p0, p.ignition_steps, spark.ignited)
        };
    let m = choose|m: AirBreakdown<K::Kinetics>| #[trigger]
        is_model(kinetics, s.wavelength, s.gas, s.focus, s.temperature, Ok(m)) && m@.is_threshold(
            p.fwhm,
            p.p0,
            p.ignition_steps,
            Ok(spark.i_threshold),
        ) && m@.is_breakdown(i_peak, p.fwhm, p.p0, p.ignition_steps, spark.ignited);
    lemma_threshold_is_bracketed(m@, p.fwhm, p.p0, p.ignition_steps, spark.i_threshold, worth)
}

} // verus!

//! Checks of what a caller asks for, in the order in which they are reported.
use crate::optics::Optics;
use vstd::prelude::*;

verus! {

/// Why a beam is refused.
#[derive(Debug, Clone, Copy, PartialEq, Eq, Structural)]
pub enum BeamError {
    BadWavelength,
    BadWaist,
}

/// Why a turbulent path is refused.
#[derive(Debug, Clone, Copy, PartialEq, Eq, Structural)]
pub enum PathError {
    NoScreens,
    NoSubsteps,
    /// The strength, the length or the outer scale is not positive.
    BadTurbulence,
    BadWavelength,
}

/// The checks of a beam: the wavelength, then the waist.
pub open spec fn is_beam_check<K: Optics>(
    k: K,
    wavelength: K::Real,
    w0: K::Real,
    r: Result<(), BeamError>,
) -> bool {
    match r {
        Ok(_) => {
            &&& call_ensures(K::is_positive, (&k, wavelength), true)
            &&& call_ensures(K::is_positive, (&k, w0), true)
        },
        Err(BeamError::BadWavelength) => call_ensures(K::is_positive, (&k, wavelength), false),
        Err(BeamError::BadWaist) => {
            &&& call_ensures(K::is_positive, (&k, wavelength), true)
            &&& call_ensures(K::is_positive, (&k, w0), false)
        },
    }
}

/// Check a beam.
pub fn checked_beam<K: Optics>(k: &K, wavelength: K::Real, w0: K::Real) -> (r: Result<(), BeamError>)
    ensures
        is_beam_check(*k, wavelength, w0, r),
{
    if !k.is_positive(wavelength) {
        return Err(BeamError::BadWavelength);
    }
    if !k.is_positive(w0) {
        return Err(BeamError::BadWaist);
    }
    Ok(())
}

/// What a turbulent path is asked for with.
#[derive(Debug, Clone, Copy)]
pub struct PathRequest<R> {
    pub wavelength: R,
    pub cn2: R,
    pub z: R,
    pub l0: R,
    pub screens: usize,
    pub substeps: usize,
}

/// Every scale of a path is above zero.
pub open spec fn are_scales<K: Optics>(k: K, q: PathRequest<K::Real>, good: bool) -> bool {
    exists|zero: K::Real|
        {
            &&& #[trigger] call_ensures(K::zero, (&k,), zero)
            &&& if good {
                &&& call_ensures(K::exceeds, (&k, q.cn2, zero), true)
                &&& call_ensures(K::exceeds, (&k, q.z, zero), true)
                &&& call_ensures(K::exceeds, (&k, q.l0, zero), true)
            } else {
                ||| call_ensures(K::exceeds, (&k, q.cn2, zero), false)
                ||| call_ensures(K::exceeds, (&k, q.z, zero), false)
                ||| call_ensures(K::exceeds, (&k, q.l0, zero), false)
            }
        }
}

/// The checks of a path: the screens, the substeps, the scales, the wavelength.
pub open spec fn is_path_check<K: Optics>(
    k: K,
    q: PathRequest<K::Real>,
    r: Result<(), PathError>,
) -> bool {
    let counted = q.screens > 0 && q.substeps > 0;
    match r {
        Err(PathError::NoScreens) => q.screens == 0,
        Err(PathError::NoSubsteps) => q.screens > 0 && q.substeps == 0,
        Err(PathError::BadTurbulence) => counted && are_scales(k, q, false),
        Err(PathError::BadWavelength) => {
            &&& counted
            &&& are_scales(k, q, true)
            &&& call_ensures(K::is_positive, (&k, q.wavelength), false)
        },
        Ok(_) => {
            &&& counted
            &&& are_scales(k, q, true)
            &&& call_ensures(K::is_positive, (&k, q.wavelength), true)
        },
    }
}

/// Check a turbulent path.
pub fn check_path<K: Optics>(k: &K, q: &PathRequest<K::Real>) -> (r: Result<(), PathError>)
    ensures
        is_path_check(*k, *q, r),
{
    if q.screens == 0 {
        return Err(PathError::NoScreens);
    }
    if q.substeps == 0 {
        return Err(PathError::NoSubsteps);
    }
    let zero: K::Real = k.zero();
    let good: bool = k.exceeds(q.cn2, zero) && k.exceeds(q.z, zero) && k.exceeds(q.l0, zero);
    proof {
        assert(are_scales(*k, *q, good));
    }
    if !good {
        return Err(PathError::BadTurbulence);
    }
    if !k.is_positive(q.wavelength) {
        return Err(PathError::BadWavelength);
    }
    Ok(())
}

} // verus!

//! The arithmetic of scalar optics on one grid at one wavelength, a sample at a
//! time. Positions along an axis are samples counted from zero, or signed
//! distances and frequencies in samples.
use crate::plane::Plane;
use vstd::prelude::*;

verus! {

pub trait Optics: Sized {
    /// A real quantity: a length, a power, an index perturbation.
    type Real: Copy;

    /// A complex amplitude.
    type Complex: Copy;

    fn zero(&self) -> Self::Real;

    fn is_zero(&self, x: Self::Real) -> bool;

    fn plus(&self, a: Self::Real, b: Self::Real) -> Self::Real;

    fn times(&self, a: Self::Real, b: Self::Real) -> Self::Real;

    fn ratio(&self, a: Self::Real, b: Self::Real) -> Self::Real;

    fn larger(&self, a: Self::Real, b: Self::Real) -> Self::Real;

    fn smaller(&self, a: Self::Real, b: Self::Real) -> Self::Real;

    /// Whether `a > b`.
    fn exceeds(&self, a: Self::Real, b: Self::Real) -> bool;

    /// Whether a quantity is positive and finite.
    fn is_positive(&self, x: Self::Real) -> bool;

    /// Whether two lengths are the same number.
    fn same_length(&self, a: Self::Real, b: Self::Real) -> bool;

    fn half(&self, x: Self::Real) -> Self::Real;

    /// Grid spacing.
    fn spacing(&self) -> Self::Real;

    /// Vacuum wavelength.
    fn wavelength(&self) -> Self::Real;

    /// Whether `dz` is at most the distance that separates the sampling regimes
    /// of the two diffraction kernels.
    fn is_subcritical(&self, dz: Self::Real) -> bool;

    /// Transverse wavenumber of a signed frequency.
    fn wavenumber(&self, frequency: isize) -> Self::Real;

    /// Angular-spectrum transfer over `dz` at two transverse wavenumbers.
    fn transfer(&self, dz: Self::Real, kx: Self::Real, ky: Self::Real) -> Self::Complex;

    /// Fresnel impulse response over `dz` at a signed distance from the origin.
    fn impulse(&self, dz: Self::Real, x: isize, y: isize) -> Self::Complex;

    /// Two-dimensional discrete Fourier transform.
    fn forward(&self, u: &Plane<Self::Complex>) -> Plane<Self::Complex>;

    /// Its inverse.
    fn inverse(&self, u: &Plane<Self::Complex>) -> Plane<Self::Complex>;

    fn product(&self, a: Self::Complex, b: Self::Complex) -> Self::Complex;

    /// Squared modulus.
    fn intensity(&self, u: Self::Complex) -> Self::Real;

    /// A sum of intensities over the grid as a power.
    fn power(&self, sum: Self::Real) -> Self::Real;

    /// Amplitude of a centred Gaussian beam at a signed distance from the origin.
    fn gaussian(&self, w0: Self::Real, x: isize, y: isize) -> Self::Complex;

    /// An amplitude after the phase of `dn` over `dz`.
    fn retard(&self, u: Self::Complex, dn: Self::Real, dz: Self::Real) -> Self::Complex;

    /// An amplitude after the phase of `dn` and the decay of a power extinction
    /// `alpha`, over `dz`.
    fn retard_and_decay(
        &self,
        u: Self::Complex,
        dn: Self::Real,
        alpha: Self::Real,
        dz: Self::Real,
    ) -> Self::Complex;

    /// Transmission of the absorbing edge at sample `i` of an axis.
    fn edge(&self, i: usize) -> Self::Real;

    fn mask(&self, u: Self::Complex, m: Self::Real) -> Self::Complex;

    /// Absorbed power with the loss from `before` to `after` added.
    fn absorb(&self, total: Self::Real, before: Self::Real, after: Self::Real) -> Self::Real;

    /// Phase jump over `dz` between two neighbouring index perturbations.
    fn phase_jump(&self, a: Self::Real, b: Self::Real, dz: Self::Real) -> Self::Real;

    /// Whether a phase jump is too large for the sampling.
    fn is_aliased(&self, jump: Self::Real) -> bool;

    /// Whether sample `i` of an axis is in the interior of the absorbing edge.
    fn is_interior(&self, i: usize) -> bool;

    fn has_power(&self, total: Self::Real) -> bool;

    /// Whether the power outside the interior is within tolerance.
    fn is_contained(&self, inside: Self::Real, total: Self::Real) -> bool;

    /// `m` with the intensity `p` at sample `i` of an axis added to the first
    /// moment.
    fn add_moment(&self, m: Self::Real, p: Self::Real, i: usize) -> Self::Real;

    /// `v` with the intensity `p` at sample `i` of an axis added to the second
    /// moment about `centre`.
    fn add_spread(&self, v: Self::Real, p: Self::Real, i: usize, centre: Self::Real) -> Self::Real;

    /// Beam width from a second moment and the total.
    fn width(&self, v: Self::Real, total: Self::Real) -> Self::Real;

    /// Whether a beam width spans enough samples.
    fn is_resolved(&self, width: Self::Real) -> bool;
}

/// `x` is above zero.
pub open spec fn is_above_zero<K: Optics>(optics: K, x: K::Real) -> bool {
    exists|zero: K::Real| #[trigger]
        call_ensures(K::zero, (&optics,), zero) && call_ensures(K::exceeds, (&optics, x, zero), true)
}

/// A power extinction must be positive and finite, or zero.
pub open spec fn is_extinction_judged<K: Optics>(optics: K, alpha: K::Real, good: bool) -> bool {
    let positive = call_ensures(K::is_positive, (&optics, alpha), true);
    let no = call_ensures(K::is_positive, (&optics, alpha), false);
    if good {
        ||| positive
        ||| no && call_ensures(K::is_zero, (&optics, alpha), true)
    } else {
        no && call_ensures(K::is_zero, (&optics, alpha), false)
    }
}

/// Whether a power extinction is positive and finite, or zero.
pub fn is_extinction<K: Optics>(optics: &K, alpha: K::Real) -> (good: bool)
    ensures
        is_extinction_judged(*optics, alpha, good),
{
    optics.is_positive(alpha) || optics.is_zero(alpha)
}

/// A beam of the given spacing, wavelength and waist can be launched: the spacing
/// is positive and finite, the wavelength and the waist are positive.
pub open spec fn is_launchable<K: Optics>(
    optics: K,
    dx: K::Real,
    wavelength: K::Real,
    w0: K::Real,
) -> bool {
    &&& call_ensures(K::is_positive, (&optics, dx), true)
    &&& is_above_zero(optics, wavelength)
    &&& is_above_zero(optics, w0)
}

} // verus!

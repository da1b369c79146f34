//! What the beam propagates through: one index perturbation per slab, and, for
//! a lossy slab, one extinction.
use crate::optics::{is_extinction_judged, Optics};
use crate::plane::Plane;
use vstd::prelude::*;

verus! {

/// A propagation medium, sampled as one index perturbation per slab.
pub trait Medium<K: Optics>: Sized {
    /// Why a medium that depends on the beam refuses it.
    type Refusal;

    /// Index perturbation of a slab. A medium that depends on the beam need not
    /// have one.
    fn index_perturbation(&self, optics: &K, z_slab: usize) -> Plane<K::Real>;

    /// Whether the index depends on the beam, so that the propagator has to ask
    /// [`Medium::index_response`] instead.
    fn needs_intensity(&self, optics: &K) -> (b: bool)
        default_ensures
            !b,
    {
        false
    }

    /// Index perturbation of a slab of thickness `dz`, given the intensity at
    /// its centre before the slab's own extinction.
    fn index_response(
        &self,
        optics: &K,
        z_slab: usize,
        intensity: &Plane<K::Real>,
        dz: K::Real,
    ) -> (r: Result<Plane<K::Real>, Self::Refusal>)
        default_ensures
            r matches Ok(dn) && call_ensures(
                <Self as Medium<K>>::index_perturbation,
                (self, optics, z_slab),
                dn,
            ),
    {
        Ok(self.index_perturbation(optics, z_slab))
    }

    /// Power extinction of a slab, or `None` for a lossless one.
    fn extinction(&self, optics: &K, z_slab: usize) -> (r: Option<Plane<K::Real>>)
        default_ensures
            r is None,
    {
        None
    }

    /// Number of slabs that the medium defines, or `None` if it has no end.
    fn slab_count(&self, optics: &K) -> (r: Option<usize>)
        default_ensures
            r is None,
    {
        None
    }
}

/// One value everywhere on an `n` by `n` array.
pub open spec fn is_uniform<R>(p: Plane<R>, n: int, value: R) -> bool {
    &&& p.wf()
    &&& p@.len() == n
    &&& p.spec_width() == n
    &&& forall|j: int, i: int| 0 <= j < n && 0 <= i < n ==> #[trigger] p@[j][i] == value
}

/// Vacuum, or unperturbed air.
#[derive(Debug, Clone, Copy, PartialEq, Eq)]
pub struct Vacuum {
    n: usize,
}

impl Vacuum {
    pub closed spec fn spec_n(self) -> usize {
        self.n
    }

    #[verifier::type_invariant]
    spec fn fits(self) -> bool {
        self.n * self.n <= usize::MAX
    }

    /// Vacuum on an `n` by `n` grid.
    pub fn new(n: usize) -> (v: Self)
        requires
            n * n <= usize::MAX,
        ensures
            v.spec_n() == n,
    {
        Vacuum { n }
    }
}

impl<K: Optics> Medium<K> for Vacuum {
    type Refusal = ();

    fn index_perturbation(&self, optics: &K, z_slab: usize) -> (p: Plane<K::Real>)
        ensures
            exists|zero: K::Real| #[trigger]
                call_ensures(K::zero, (optics,), zero) && is_uniform(
                    p,
                    self.spec_n() as int,
                    zero,
                ),
    {
        proof {
            use_type_invariant(self);
        }
        let zero: K::Real = optics.zero();
        Plane::filled(self.n, self.n, zero)
    }
}

/// A uniform index offset: a global phase and nothing else.
#[derive(Debug, PartialEq)]
pub struct ConstantDeltaN<R> {
    n: usize,
    delta_n: R,
}

impl<R> ConstantDeltaN<R> {
    #[verifier::type_invariant]
    spec fn fits(self) -> bool {
        self.n * self.n <= usize::MAX
    }
}

impl<R: Copy> ConstantDeltaN<R> {
    pub closed spec fn spec_n(self) -> usize {
        self.n
    }

    pub closed spec fn spec_delta_n(self) -> R {
        self.delta_n
    }

    pub fn new(n: usize, delta_n: R) -> (m: Self)
        requires
            n * n <= usize::MAX,
        ensures
            m.spec_n() == n,
            m.spec_delta_n() == delta_n,
    {
        ConstantDeltaN { n, delta_n }
    }
}

impl<R: Copy, K: Optics<Real = R>> Medium<K> for ConstantDeltaN<R> {
    type Refusal = ();

    fn index_perturbation(&self, optics: &K, z_slab: usize) -> (p: Plane<R>)
        ensures
            is_uniform(p, self.spec_n() as int, self.spec_delta_n()),
    {
        proof {
            use_type_invariant(self);
        }
        Plane::filled(self.n, self.n, self.delta_n)
    }
}

/// A homogeneous absorbing or scattering atmosphere.
#[derive(Debug, PartialEq)]
pub struct UniformExtinction<R> {
    n: usize,
    alpha: R,
}

impl<R> UniformExtinction<R> {
    #[verifier::type_invariant]
    spec fn fits(self) -> bool {
        self.n * self.n <= usize::MAX
    }
}

impl<R: Copy> UniformExtinction<R> {
    pub closed spec fn spec_n(self) -> usize {
        self.n
    }

    pub closed spec fn spec_alpha(self) -> R {
        self.alpha
    }

    pub fn new<K: Optics<Real = R>>(optics: &K, n: usize, alpha: R) -> (m: Self)
        requires
            n * n <= usize::MAX,
            is_extinction_judged(*optics, alpha, true),
        ensures
            m.spec_n() == n,
            m.spec_alpha() == alpha,
    {
        UniformExtinction { n, alpha }
    }
}

impl<R: Copy, K: Optics<Real = R>> Medium<K> for UniformExtinction<R> {
    type Refusal = ();

    fn index_perturbation(&self, optics: &K, z_slab: usize) -> (p: Plane<R>)
        ensures
            exists|zero: R| #[trigger]
                call_ensures(K::zero, (optics,), zero) && is_uniform(
                    p,
                    self.spec_n() as int,
                    zero,
                ),
    {
        proof {
            use_type_invariant(self);
        }
        let zero: R = optics.zero();
        Plane::filled(self.n, self.n, zero)
    }

    fn extinction(&self, optics: &K, z_slab: usize) -> (r: Option<Plane<R>>)
        ensures
            match r {
                None => call_ensures(K::is_zero, (optics, self.spec_alpha()), true),
                Some(p) => {
                    &&& call_ensures(K::is_zero, (optics, self.spec_alpha()), false)
                    &&& is_uniform(p, self.spec_n() as int, self.spec_alpha())
                },
            },
    {
        proof {
            use_type_invariant(self);
        }
        if optics.is_zero(self.alpha) {
            None
        } else {
            Some(Plane::filled(self.n, self.n, self.alpha))
        }
    }
}

/// The arithmetic of aerosol extinction.
pub trait Haze: Optics {
    fn kilometres(&self, visibility: Self::Real) -> Self::Real;

    /// Whether a visibility is that of very clear air.
    fn is_clear(&self, km: Self::Real) -> bool;

    /// Whether a visibility is that of ordinary air.
    fn is_average(&self, km: Self::Real) -> bool;

    /// Wavelength exponent of very clear air.
    fn clear_exponent(&self) -> Self::Real;

    /// Wavelength exponent of ordinary air.
    fn average_exponent(&self) -> Self::Real;

    /// Wavelength exponent of haze.
    fn haze_exponent(&self, km: Self::Real) -> Self::Real;

    /// Extinction of a visibility at a wavelength, with a wavelength exponent.
    fn kruse_law(&self, wavelength: Self::Real, visibility: Self::Real, q: Self::Real) -> Self::Real;
}

/// `q` is the wavelength exponent of a visibility.
pub open spec fn is_exponent<K: Haze>(k: K, km: K::Real, q: K::Real) -> bool {
    let clear = call_ensures(K::is_clear, (&k, km), true);
    let dim = call_ensures(K::is_clear, (&k, km), false);
    ||| clear && call_ensures(K::clear_exponent, (&k,), q)
    ||| dim && call_ensures(K::is_average, (&k, km), true) && call_ensures(
        K::average_exponent,
        (&k,),
        q,
    )
    ||| dim && call_ensures(K::is_average, (&k, km), false) && call_ensures(
        K::haze_exponent,
        (&k, km),
        q,
    )
}

/// `alpha` is the aerosol extinction of a visibility at a wavelength.
pub open spec fn is_kruse<K: Haze>(
    k: K,
    wavelength: K::Real,
    visibility: K::Real,
    alpha: K::Real,
) -> bool {
    exists|km: K::Real, q: K::Real|
        {
            &&& #[trigger] call_ensures(K::kilometres, (&k, visibility), km)
            &&& #[trigger] is_exponent(k, km, q)
            &&& call_ensures(K::kruse_law, (&k, wavelength, visibility, q), alpha)
        }
}

/// Aerosol extinction from the meteorological visibility. Both lengths must have
/// been found positive and finite.
pub fn kruse_extinction<K: Haze>(k: &K, wavelength: K::Real, visibility: K::Real) -> (alpha: K::Real)
    requires
        call_ensures(K::is_positive, (k, visibility), true),
        call_ensures(K::is_positive, (k, wavelength), true),
    ensures
        is_kruse(*k, wavelength, visibility, alpha),
{
    let km: K::Real = k.kilometres(visibility);
    let q: K::Real = if k.is_clear(km) {
        k.clear_exponent()
    } else if k.is_average(km) {
        k.average_exponent()
    } else {
        k.haze_exponent(km)
    };
    proof {
        assert(is_exponent(*k, km, q));
    }
    k.kruse_law(wavelength, visibility, q)
}

} // verus!

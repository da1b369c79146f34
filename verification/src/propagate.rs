//! The symmetric split-step propagator.
//!
//! A step diffracts half-way, applies the slab's phase and loss, diffracts the
//! other half and passes the absorbing edge. Which kernel a diffraction takes,
//! when a kernel is reused, what a medium is asked and in which order a run is
//! refused is decided here; the arithmetic on a sample belongs to [`Optics`].
use crate::field::{is_power, Field};
use crate::grid::{frequency_of, is_grid_size, offset_of, shifted_of, Grid};
use crate::medium::Medium;
use crate::optics::Optics;
use crate::plane::{is_fold, lemma_fold_widens, steps_of, Plane};
use vstd::prelude::*;

verus! {

/// Which diffraction kernel a step takes.
#[derive(Debug, Clone, Copy, PartialEq, Eq, Structural)]
pub enum DiffractionMethod {
    /// Angular-spectrum transfer function, up to the critical distance.
    AngularSpectrum,
    /// Fresnel impulse response, beyond it.
    FresnelImpulseResponse,
}

/// Why a propagation is refused. `E` is what a medium refuses a beam with.
#[derive(Debug, Clone, Copy, PartialEq, Eq)]
pub enum PropagateError<E> {
    /// The wavelength is not positive and finite.
    BadWavelength,
    /// The power extinction is negative or not finite.
    BadExtinction,
    /// The slab thickness is not positive and finite.
    BadStepLength,
    /// The run would leave the slabs that the medium defines.
    BeyondMedium { first_slab: usize, n_steps: usize, slabs: usize },
    GridMismatch,
    WavelengthMismatch,
    NoPower,
    NotContained,
    UnderResolved,
    /// The medium refuses the beam.
    Medium(E),
    /// The index perturbation is not of the grid's shape.
    IndexShape,
    /// The slab phase is not resolved by the sampling.
    PhaseUnderResolved,
    /// The extinction is not of the grid's shape.
    ExtinctionShape,
    /// The Fourier transform did not keep the grid's shape.
    TransformShape,
}

/// An array is sound and `n` by `n`.
pub open spec fn is_square<T>(p: Plane<T>, n: int) -> bool {
    p.wf() && p@.len() == n && p.spec_width() == n
}

/// `h[j][i]` is the angular-spectrum transfer at the frequencies of row `j` and
/// column `i`.
pub open spec fn is_angular_kernel<K: Optics>(
    optics: K,
    n: int,
    dz: K::Real,
    k: Seq<K::Real>,
    h: Plane<K::Complex>,
) -> bool {
    &&& is_square(h, n)
    &&& k.len() == n
    &&& forall|i: int|
        0 <= i < n ==> call_ensures(
            K::wavenumber,
            (&optics, frequency_of(n, i) as isize),
            #[trigger] k[i],
        )
    &&& forall|j: int, i: int|
        0 <= j < n && 0 <= i < n ==> call_ensures(
            K::transfer,
            (&optics, dz, k[i], k[j]),
            #[trigger] h@[j][i],
        )
}

/// `p[j][i]` is the impulse response with the origin rolled to the first sample
/// of each axis.
pub open spec fn is_rolled_impulse<K: Optics>(
    optics: K,
    n: int,
    dz: K::Real,
    p: Plane<K::Complex>,
) -> bool {
    &&& is_square(p, n)
    &&& forall|j: int, i: int|
        0 <= j < n && 0 <= i < n ==> call_ensures(
            K::impulse,
            (
                &optics,
                dz,
                offset_of(n, shifted_of(n, i)) as isize,
                offset_of(n, shifted_of(n, j)) as isize,
            ),
            #[trigger] p@[j][i],
        )
}

/// `h` is the transfer function of a diffraction over `dz`.
pub open spec fn is_kernel<K: Optics>(
    optics: K,
    n: int,
    dz: K::Real,
    method: DiffractionMethod,
    h: Plane<K::Complex>,
) -> bool {
    match method {
        DiffractionMethod::AngularSpectrum => exists|k: Seq<K::Real>| #[trigger]
            is_angular_kernel(optics, n, dz, k, h),
        DiffractionMethod::FresnelImpulseResponse => {
            &&& is_square(h, n)
            &&& exists|p: Plane<K::Complex>| #[trigger]
                is_rolled_impulse(optics, n, dz, p) && call_ensures(K::forward, (&optics, &p), h)
        },
    }
}

/// `method` is the one for a diffraction over `dz`.
pub open spec fn is_method_for<K: Optics>(
    optics: K,
    dz: K::Real,
    method: DiffractionMethod,
) -> bool {
    call_ensures(
        K::is_subcritical,
        (&optics, dz),
        method == DiffractionMethod::AngularSpectrum,
    )
}

/// `p` is the entry-by-entry product of two arrays.
pub open spec fn is_product<K: Optics>(
    optics: K,
    n: int,
    a: Plane<K::Complex>,
    b: Plane<K::Complex>,
    p: Plane<K::Complex>,
) -> bool {
    &&& is_square(p, n)
    &&& forall|j: int, i: int|
        0 <= j < n && 0 <= i < n ==> call_ensures(
            K::product,
            (&optics, a@[j][i], b@[j][i]),
            #[trigger] p@[j][i],
        )
}

/// `v` is `u` filtered by the transfer function `h`: transformed, multiplied,
/// transformed back.
pub open spec fn is_filtered<K: Optics>(
    optics: K,
    n: int,
    h: Plane<K::Complex>,
    u: Plane<K::Complex>,
    v: Plane<K::Complex>,
) -> bool {
    &&& is_square(v, n)
    &&& exists|s: Plane<K::Complex>, t: Plane<K::Complex>|
        {
            &&& is_square(s, n)
            &&& #[trigger] call_ensures(K::forward, (&optics, &u), s)
            &&& #[trigger] is_product(optics, n, s, h, t)
            &&& call_ensures(K::inverse, (&optics, &t), v)
        }
}

/// A transfer function with what it was built for.
pub struct CachedKernel<R, C> {
    pub dz: R,
    pub method: DiffractionMethod,
    pub h: Plane<C>,
}

/// What a propagator is, mathematically.
pub struct March<K: Optics> {
    pub optics: K,
    pub n: nat,
    pub edge: Seq<Seq<K::Real>>,
    pub applies_edge: bool,
    pub absorbed: K::Real,
    pub cached: Option<CachedKernel<K::Real, K::Complex>>,
}

/// `v` is `u` diffracted over `dz`, by a transfer function for a length that is
/// `dz` or was found to be the same number; `cached` is that function.
pub open spec fn is_diffracted<K: Optics>(
    optics: K,
    n: int,
    dz: K::Real,
    u: Plane<K::Complex>,
    cached: CachedKernel<K::Real, K::Complex>,
    v: Plane<K::Complex>,
) -> bool {
    &&& cached.dz == dz || call_ensures(K::same_length, (&optics, cached.dz, dz), true)
    &&& is_method_for(optics, dz, cached.method)
    &&& is_kernel(optics, n, cached.dz, cached.method, cached.h)
    &&& is_filtered(optics, n, cached.h, u, v)
}

/// `reuse` is whether a kept transfer function, if there is one, serves for `dz`:
/// it was built by the same method for a length found to be the same.
pub open spec fn is_reuse<K: Optics>(
    optics: K,
    cached: Option<CachedKernel<K::Real, K::Complex>>,
    dz: K::Real,
    method: DiffractionMethod,
    reuse: bool,
) -> bool {
    match cached {
        Some(c) => if c.method == method {
            call_ensures(K::same_length, (&optics, c.dz, dz), reuse)
        } else {
            !reuse
        },
        None => !reuse,
    }
}

/// `cached` is the transfer function at hand for `dz`: the one that `pre` keeps
/// where it serves, else one built for `dz`.
pub open spec fn is_kernel_at_hand<K: Optics>(
    pre: March<K>,
    dz: K::Real,
    method: DiffractionMethod,
    cached: Option<CachedKernel<K::Real, K::Complex>>,
) -> bool {
    ||| is_reuse(pre.optics, pre.cached, dz, method, true) && cached == pre.cached
    ||| {
        &&& is_reuse(pre.optics, pre.cached, dz, method, false)
        &&& cached matches Some(c) && c.dz == dz && c.method == method && is_kernel(
            pre.optics,
            pre.n as int,
            dz,
            method,
            c.h,
        )
    }
}

/// No transfer function can be had for `dz`: none is kept that serves, and the
/// transform of the impulse response is not of the grid's shape.
pub open spec fn is_kernel_refused<K: Optics>(
    pre: March<K>,
    dz: K::Real,
    method: DiffractionMethod,
) -> bool {
    &&& is_reuse(pre.optics, pre.cached, dz, method, false)
    &&& method == DiffractionMethod::FresnelImpulseResponse
    &&& exists|p: Plane<K::Complex>, h: Plane<K::Complex>|
        {
            &&& #[trigger] is_rolled_impulse(pre.optics, pre.n as int, dz, p)
            &&& #[trigger] call_ensures(K::forward, (&pre.optics, &p), h)
            &&& !is_square(h, pre.n as int)
        }
}

/// `u` cannot be filtered by `h`: its transform is not of the grid's shape, or
/// what the product is transformed back to is not.
pub open spec fn is_filter_refused<K: Optics>(
    optics: K,
    n: int,
    h: Plane<K::Complex>,
    u: Plane<K::Complex>,
) -> bool {
    exists|s: Plane<K::Complex>|
        {
            &&& #[trigger] call_ensures(K::forward, (&optics, &u), s)
            &&& {
                ||| !is_square(s, n)
                ||| is_square(s, n) && exists|t: Plane<K::Complex>, v: Plane<K::Complex>|
                    {
                        &&& #[trigger] is_product(optics, n, s, h, t)
                        &&& #[trigger] call_ensures(K::inverse, (&optics, &t), v)
                        &&& !is_square(v, n)
                    }
            }
        }
}

/// `u` cannot be diffracted over `dz`, which leaves `post`.
pub open spec fn is_diffraction_refused<K: Optics>(
    pre: March<K>,
    dz: K::Real,
    u: Plane<K::Complex>,
    post: March<K>,
) -> bool {
    exists|method: DiffractionMethod| #[trigger]
        is_method_for(pre.optics, dz, method) && {
            ||| post == pre && is_kernel_refused(pre, dz, method)
            ||| {
                &&& post == (March { cached: post.cached, ..pre })
                &&& is_kernel_at_hand(pre, dz, method, post.cached)
                &&& post.cached matches Some(c) && is_filter_refused(
                    pre.optics,
                    pre.n as int,
                    c.h,
                    u,
                )
            }
        }
}

/// `edge` is the separable transmission of the absorbing edge.
pub open spec fn is_edge<K: Optics>(
    optics: K,
    n: int,
    profile: Seq<K::Real>,
    edge: Seq<Seq<K::Real>>,
) -> bool {
    &&& profile.len() == n
    &&& forall|i: int| 0 <= i < n ==> call_ensures(K::edge, (&optics, i as usize), #[trigger] profile[i])
    &&& edge.len() == n
    &&& forall|j: int|
        0 <= j < n ==> #[trigger] edge[j].len() == n
    &&& forall|j: int, i: int|
        0 <= j < n && 0 <= i < n ==> call_ensures(
            K::times,
            (&optics, profile[i], profile[j]),
            #[trigger] edge[j][i],
        )
}

/// A symmetric split-step propagator bound to one grid and wavelength.
pub struct Propagator<K: Optics> {
    optics: K,
    n: usize,
    boundary: Plane<K::Real>,
    apply_boundary: bool,
    guard_absorbed: K::Real,
    cached: Option<CachedKernel<K::Real, K::Complex>>,
}

impl<K: Optics> View for Propagator<K> {
    type V = March<K>;

    closed spec fn view(&self) -> March<K> {
        March {
            optics: self.optics,
            n: self.n as nat,
            edge: self.boundary@,
            applies_edge: self.apply_boundary,
            absorbed: self.guard_absorbed,
            cached: self.cached,
        }
    }
}

impl<K: Optics> March<K> {
    /// A cached transfer function is the one for the length and method that it
    /// is kept under.
    pub open spec fn valid(self) -> bool {
        &&& is_grid_size(self.n as int)
        &&& self.n <= isize::MAX
        &&& self.n * self.n <= usize::MAX
        &&& exists|profile: Seq<K::Real>| #[trigger]
            is_edge(self.optics, self.n as int, profile, self.edge)
        &&& self.cached matches Some(c) ==> is_kernel(
            self.optics,
            self.n as int,
            c.dz,
            c.method,
            c.h,
        )
    }
}

/// The transfer function of the angular spectrum over `dz`.
fn angular_spectrum_kernel<K: Optics>(optics: &K, n: usize, dz: K::Real) -> (h: Plane<K::Complex>)
    requires
        is_grid_size(n as int),
        n <= isize::MAX,
        n * n <= usize::MAX,
    ensures
        exists|k: Seq<K::Real>| #[trigger] is_angular_kernel(*optics, n as int, dz, k, h),
{
    let grid: Grid<()> = Grid { n, dx: () };
    let mut k: Vec<K::Real> = Vec::with_capacity(n);
    for i in 0..n
        invariant
            grid.n == n,
            n <= isize::MAX,
            k@.len() == i,
            forall|m: int|
                0 <= m < i ==> call_ensures(
                    K::wavenumber,
                    (optics, frequency_of(n as int, m) as isize),
                    #[trigger] k@[m],
                ),
    {
        let f: isize = grid.frequency(i);
        let w: K::Real = optics.wavenumber(f);
        k.push(w);
    }
    let k: &Vec<K::Real> = &k;
    let entry = |j: usize, i: usize| -> (c: K::Complex)
        requires
            j < n,
            i < n,
            k@.len() == n,
        ensures
            call_ensures(K::transfer, (optics, dz, k@[i as int], k@[j as int]), c),
        { optics.transfer(dz, k[i], k[j]) };
    let h: Plane<K::Complex> = Plane::from_fn(n, n, entry);
    proof {
        assert(is_angular_kernel(*optics, n as int, dz, k@, h));
    }
    h
}

/// The impulse response over `dz`, its origin rolled to the first sample.
fn rolled_impulse<K: Optics>(optics: &K, n: usize, dz: K::Real) -> (p: Plane<K::Complex>)
    requires
        is_grid_size(n as int),
        n <= isize::MAX,
        n * n <= usize::MAX,
    ensures
        is_rolled_impulse(*optics, n as int, dz, p),
{
    let grid: Grid<()> = Grid { n, dx: () };
    let entry = |j: usize, i: usize| -> (c: K::Complex)
        requires
            j < n,
            i < n,
            n <= isize::MAX,
            grid.n == n,
        ensures
            call_ensures(
                K::impulse,
                (
                    optics,
                    dz,
                    offset_of(n as int, shifted_of(n as int, i as int)) as isize,
                    offset_of(n as int, shifted_of(n as int, j as int)) as isize,
                ),
                c,
            ),
        {
            let x: isize = grid.offset(grid.shifted(i));
            let y: isize = grid.offset(grid.shifted(j));
            optics.impulse(dz, x, y)
        };
    Plane::from_fn(n, n, entry)
}

/// The separable transmission of the absorbing edge.
fn boundary_mask<K: Optics>(optics: &K, n: usize) -> (m: Plane<K::Real>)
    requires
        n * n <= usize::MAX,
    ensures
        is_square(m, n as int),
        exists|profile: Seq<K::Real>| #[trigger] is_edge(*optics, n as int, profile, m@),
{
    let mut profile: Vec<K::Real> = Vec::with_capacity(n);
    for i in 0..n
        invariant
            profile@.len() == i,
            forall|k: int|
                0 <= k < i ==> call_ensures(K::edge, (optics, k as usize), #[trigger] profile@[k]),
    {
        let e: K::Real = optics.edge(i);
        profile.push(e);
    }
    let profile: &Vec<K::Real> = &profile;
    let entry = |j: usize, i: usize| -> (m: K::Real)
        requires
            j < n,
            i < n,
            profile@.len() == n,
        ensures
            call_ensures(K::times, (optics, profile@[i as int], profile@[j as int]), m),
        { optics.times(profile[i], profile[j]) };
    let m: Plane<K::Real> = Plane::from_fn(n, n, entry);
    proof {
        assert(is_edge(*optics, n as int, profile@, m@));
    }
    m
}

impl<K: Optics> Propagator<K> {
    pub closed spec fn stored(&self) -> bool {
        &&& is_square(self.boundary, self.n as int)
        &&& self.cached matches Some(c) ==> is_square(c.h, self.n as int)
    }

    pub open spec fn wf(&self) -> bool {
        self.stored() && self@.valid()
    }

    /// A propagator for a grid of `n` samples per side.
    pub fn new(optics: K, n: usize) -> (r: Result<Self, PropagateError<()>>)
        requires
            is_grid_size(n as int),
            n <= isize::MAX,
            n * n <= usize::MAX,
        ensures
            exists|wavelength: K::Real|
                {
                    &&& #[trigger] call_ensures(K::wavelength, (&optics,), wavelength)
                    &&& match r {
                        Ok(p) => {
                            &&& call_ensures(K::is_positive, (&optics, wavelength), true)
                            &&& p.wf()
                            &&& p@.optics == optics
                            &&& p@.n == n
                            &&& p@.applies_edge
                            &&& p@.cached is None
                            &&& call_ensures(K::zero, (&optics,), p@.absorbed)
                        },
                        Err(e) => {
                            &&& call_ensures(K::is_positive, (&optics, wavelength), false)
                            &&& e == PropagateError::<()>::BadWavelength
                        },
                    }
                },
    {
        let wavelength: K::Real = optics.wavelength();
        if !optics.is_positive(wavelength) {
            return Err(PropagateError::BadWavelength);
        }
        let boundary: Plane<K::Real> = boundary_mask(&optics, n);
        let guard_absorbed: K::Real = optics.zero();
        let p: Self = Propagator {
            optics,
            n,
            boundary,
            apply_boundary: true,
            guard_absorbed,
            cached: None,
        };
        proof {
            let profile = choose|profile: Seq<K::Real>| #[trigger]
                is_edge(optics, n as int, profile, boundary@);
            assert(is_edge(p@.optics, p@.n as int, profile, p@.edge));
        }
        Ok(p)
    }

    /// The same propagator without the absorbing edge. For showing what the edge
    /// prevents, not for a run.
    pub fn without_boundary(self) -> (p: Self)
        requires
            self.wf(),
        ensures
            p.wf(),
            p@ == (March { applies_edge: false, ..self@ }),
    {
        let p: Self = Propagator { apply_boundary: false, ..self };
        proof {
            let profile = choose|profile: Seq<K::Real>| #[trigger]
                is_edge(self@.optics, self@.n as int, profile, self@.edge);
            assert(is_edge(p@.optics, p@.n as int, profile, p@.edge));
        }
        p
    }

    /// The arithmetic in force.
    pub fn optics(&self) -> (k: &K)
        ensures
            *k == self@.optics,
    {
        &self.optics
    }

    /// Power absorbed by the edge so far.
    pub fn guard_absorbed(&self) -> (a: K::Real)
        ensures
            a == self@.absorbed,
    {
        self.guard_absorbed
    }

    /// The kernel for a diffraction over `dz`.
    pub fn method_for(&self, dz: K::Real) -> (method: DiffractionMethod)
        ensures
            is_method_for(self@.optics, dz, method),
    {
        if self.optics.is_subcritical(dz) {
            DiffractionMethod::AngularSpectrum
        } else {
            DiffractionMethod::FresnelImpulseResponse
        }
    }

    /// Build the transfer function for `dz`, or keep the cached one where it was
    /// built for the same length by the same method. False if the transform did
    /// not keep the grid's shape, and then nothing is changed.
    fn ensure_kernel(&mut self, dz: K::Real, method: DiffractionMethod) -> (done: bool)
        requires
            old(self).wf(),
        ensures
            final(self).wf(),
            final(self)@ == (March { cached: final(self)@.cached, ..old(self)@ }),
            if done {
                is_kernel_at_hand(old(self)@, dz, method, final(self)@.cached)
            } else {
                final(self)@ == old(self)@ && is_kernel_refused(old(self)@, dz, method)
            },
    {
        let reuse: bool = match &self.cached {
            Some(c) => if c.method == method {
                self.optics.same_length(c.dz, dz)
            } else {
                false
            },
            None => false,
        };
        if reuse {
            return true;
        }
        let n: usize = self.n;
        let h: Plane<K::Complex> = match method {
            DiffractionMethod::AngularSpectrum => angular_spectrum_kernel(&self.optics, n, dz),
            DiffractionMethod::FresnelImpulseResponse => {
                let p: Plane<K::Complex> = rolled_impulse(&self.optics, n, dz);
                let h: Plane<K::Complex> = self.optics.forward(&p);
                if !h.has_shape(n, n) {
                    proof {
                        assert(is_rolled_impulse(self@.optics, self@.n as int, dz, p));
                        assert(is_kernel_refused(self@, dz, method));
                    }
                    return false;
                }
                h
            },
        };
        proof {
            assert(is_kernel(self.optics, n as int, dz, method, h));
        }
        let ghost before = self@;
        self.cached = Some(CachedKernel { dz, method, h });
        proof {
            let profile = choose|profile: Seq<K::Real>| #[trigger]
                is_edge(before.optics, before.n as int, profile, before.edge);
            assert(is_edge(self@.optics, self@.n as int, profile, self@.edge));
        }
        true
    }

    /// Pure diffraction over `dz`: no medium and no edge.
    pub fn diffract(&mut self, field: &mut Field<K::Real, K::Complex>, dz: K::Real) -> (r: Result<
        (),
        PropagateError<()>,
    >)
        requires
            old(self).wf(),
            old(field).valid(),
            old(field).grid.n == old(self)@.n,
        ensures
            final(self).wf(),
            final(field).valid(),
            final(field).grid == old(field).grid,
            final(field).wavelength == old(field).wavelength,
            final(self)@ == (March { cached: final(self)@.cached, ..old(self)@ }),
            match r {
                Ok(_) => final(self)@.cached matches Some(c) && is_diffracted(
                    old(self)@.optics,
                    old(self)@.n as int,
                    dz,
                    old(field).u,
                    c,
                    final(field).u,
                ),
                Err(e) => {
                    &&& e == PropagateError::<()>::TransformShape
                    &&& final(field).u == old(field).u
                    &&& is_diffraction_refused(old(self)@, dz, old(field).u, final(self)@)
                },
            },
    {
        let method: DiffractionMethod = self.method_for(dz);
        if !self.ensure_kernel(dz, method) {
            return Err(PropagateError::TransformShape);
        }
        let n: usize = self.n;
        let s: Plane<K::Complex> = self.optics.forward(&field.u);
        if !s.has_shape(n, n) {
            return Err(PropagateError::TransformShape);
        }
        match &self.cached {
            Some(c) => {
                let optics: &K = &self.optics;
                let multiply = |a: K::Complex, b: K::Complex| -> (p: K::Complex)
                    ensures
                        call_ensures(K::product, (optics, a, b), p),
                    { optics.product(a, b) };
                let t: Plane<K::Complex> = s.zip_map(&c.h, multiply);
                let v: Plane<K::Complex> = optics.inverse(&t);
                if !v.has_shape(n, n) {
                    proof {
                        assert(is_product(*optics, n as int, s, c.h, t));
                        assert(is_filter_refused(*optics, n as int, c.h, field.u));
                    }
                    return Err(PropagateError::TransformShape);
                }
                proof {
                    assert(is_product(*optics, n as int, s, c.h, t));
                    assert(is_filtered(*optics, n as int, c.h, field.u, v));
                }
                field.u = v;
                Ok(())
            },
            None => Err(PropagateError::TransformShape),
        }
    }
}

/// The largest phase jump between neighbours of a row so far.
pub open spec fn raises_jump<K: Optics>(
    optics: K,
    dn: Seq<Seq<K::Real>>,
    dz: K::Real,
) -> spec_fn(K::Real, int, int, K::Real, K::Real) -> bool {
    |s: K::Real, j: int, i: int, v: K::Real, next: K::Real|
        if i == 0 {
            next == s
        } else {
            is_raised(optics, dn[j][i - 1], v, dz, s, next)
        }
}

/// `next` is the phase jump from `a` to `b` if that is larger than `s`, else `s`.
pub open spec fn is_raised<K: Optics>(
    optics: K,
    a: K::Real,
    b: K::Real,
    dz: K::Real,
    s: K::Real,
    next: K::Real,
) -> bool {
    exists|jump: K::Real|
        {
            &&& #[trigger] call_ensures(K::phase_jump, (&optics, a, b, dz), jump)
            &&& {
                ||| call_ensures(K::exceeds, (&optics, jump, s), true) && next == jump
                ||| call_ensures(K::exceeds, (&optics, jump, s), false) && next == s
            }
        }
}

/// `aliased` is whether the largest phase jump between neighbours of a row is
/// beyond the sampling.
pub open spec fn is_phase_check<K: Optics>(
    optics: K,
    n: nat,
    dn: Plane<K::Real>,
    dz: K::Real,
    aliased: bool,
) -> bool {
    exists|zero: K::Real, jump: K::Real|
        {
            &&& #[trigger] call_ensures(K::zero, (&optics,), zero)
            &&& #[trigger] is_fold(dn@, n, zero, raises_jump(optics, dn@, dz), jump)
            &&& call_ensures(K::is_aliased, (&optics, jump), aliased)
        }
}

/// `p` is the intensity of an amplitude.
pub open spec fn is_intensity<K: Optics>(
    optics: K,
    n: int,
    u: Plane<K::Complex>,
    p: Plane<K::Real>,
) -> bool {
    &&& is_square(p, n)
    &&& forall|j: int, i: int|
        0 <= j < n && 0 <= i < n ==> call_ensures(
            K::intensity,
            (&optics, u@[j][i]),
            #[trigger] p@[j][i],
        )
}

/// The index perturbation that a medium gives for an amplitude: that of its
/// response to the intensity if it needs one, else its own.
pub open spec fn is_index<K: Optics, M: Medium<K>>(
    optics: K,
    n: int,
    medium: M,
    z_slab: usize,
    dz: K::Real,
    u: Plane<K::Complex>,
    needs: bool,
    r: Result<Plane<K::Real>, M::Refusal>,
) -> bool {
    if needs {
        exists|p: Plane<K::Real>| #[trigger]
            is_intensity(optics, n, u, p) && call_ensures(
                <M as Medium<K>>::index_response,
                (&medium, &optics, z_slab, &p, dz),
                r,
            )
    } else {
        r matches Ok(dn) && call_ensures(
            <M as Medium<K>>::index_perturbation,
            (&medium, &optics, z_slab),
            dn,
        )
    }
}

/// `v` is `u` after the phase of `dn` and the decay of `alpha`, if there is one.
pub open spec fn is_passed<K: Optics>(
    optics: K,
    n: int,
    dn: Plane<K::Real>,
    alpha: Option<Plane<K::Real>>,
    dz: K::Real,
    u: Plane<K::Complex>,
    v: Plane<K::Complex>,
) -> bool {
    &&& is_square(v, n)
    &&& match alpha {
        Some(a) => forall|j: int, i: int|
            0 <= j < n && 0 <= i < n ==> call_ensures(
                K::retard_and_decay,
                (&optics, u@[j][i], dn@[j][i], a@[j][i], dz),
                #[trigger] v@[j][i],
            ),
        None => forall|j: int, i: int|
            0 <= j < n && 0 <= i < n ==> call_ensures(
                K::retard,
                (&optics, u@[j][i], dn@[j][i], dz),
                #[trigger] v@[j][i],
            ),
    }
}

/// What a slab may do to an amplitude, given what the medium answered: `index`,
/// and `loss` where it is asked.
pub open spec fn is_slab_answer<K: Optics, M: Medium<K>>(
    optics: K,
    n: nat,
    medium: M,
    z_slab: usize,
    dz: K::Real,
    u: Plane<K::Complex>,
    needs: bool,
    index: Result<Plane<K::Real>, M::Refusal>,
    loss: Option<Plane<K::Real>>,
    r: Result<Plane<K::Complex>, PropagateError<M::Refusal>>,
) -> bool {
    match index {
        Err(e) => r == Err::<Plane<K::Complex>, _>(PropagateError::Medium(e)),
        Ok(dn) => if !is_square(dn, n as int) {
            r == Err::<Plane<K::Complex>, _>(PropagateError::<M::Refusal>::IndexShape)
        } else {
            ||| {
                &&& needs
                &&& is_phase_check(optics, n, dn, dz, true)
                &&& r == Err::<Plane<K::Complex>, _>(
                    PropagateError::<M::Refusal>::PhaseUnderResolved,
                )
            }
            ||| {
                &&& needs ==> is_phase_check(optics, n, dn, dz, false)
                &&& call_ensures(
                    <M as Medium<K>>::extinction,
                    (&medium, &optics, z_slab),
                    loss,
                )
                &&& if loss matches Some(a) && !is_square(a, n as int) {
                    r == Err::<Plane<K::Complex>, _>(PropagateError::<M::Refusal>::ExtinctionShape)
                } else {
                    r matches Ok(v) && is_passed(optics, n as int, dn, loss, dz, u, v)
                }
            }
        },
    }
}

/// What a slab may do to an amplitude.
pub open spec fn is_slab<K: Optics, M: Medium<K>>(
    optics: K,
    n: nat,
    medium: M,
    z_slab: usize,
    dz: K::Real,
    u: Plane<K::Complex>,
    r: Result<Plane<K::Complex>, PropagateError<M::Refusal>>,
) -> bool {
    exists|needs: bool, index: Result<Plane<K::Real>, M::Refusal>, loss: Option<Plane<K::Real>>|
        {
            &&& call_ensures(<M as Medium<K>>::needs_intensity, (&medium, &optics), needs)
            &&& #[trigger] is_index(optics, n as int, medium, z_slab, dz, u, needs, index)
            &&& #[trigger] is_slab_answer(
                optics,
                n,
                medium,
                z_slab,
                dz,
                u,
                needs,
                index,
                loss,
                r,
            )
        }
}

/// `v` is `u` behind the absorbing edge, and `post` has booked the loss.
pub open spec fn is_edged<K: Optics>(
    pre: March<K>,
    u: Plane<K::Complex>,
    post: March<K>,
    v: Plane<K::Complex>,
) -> bool {
    if pre.applies_edge {
        &&& is_square(v, pre.n as int)
        &&& forall|j: int, i: int|
            0 <= j < pre.n && 0 <= i < pre.n ==> call_ensures(
                K::mask,
                (&pre.optics, u@[j][i], pre.edge[j][i]),
                #[trigger] v@[j][i],
            )
        &&& exists|before: K::Real, after: K::Real|
            {
                &&& #[trigger] is_power(pre.optics, u@, pre.n, before)
                &&& #[trigger] is_power(pre.optics, v@, pre.n, after)
                &&& call_ensures(
                    K::absorb,
                    (&pre.optics, pre.absorbed, before, after),
                    post.absorbed,
                )
            }
        &&& post == (March { absorbed: post.absorbed, ..pre })
    } else {
        post == pre && v == u
    }
}

/// The stages of a step, in order: half a diffraction to `a`, the slab to `b`,
/// half a diffraction to `c`, the edge. The first that refuses ends the step
/// with the field as it then stands.
pub open spec fn is_staged<K: Optics, M: Medium<K>>(
    pre: March<K>,
    medium: M,
    z_slab: usize,
    dz: K::Real,
    u: Plane<K::Complex>,
    half: K::Real,
    mid: March<K>,
    a: Plane<K::Complex>,
    b: Plane<K::Complex>,
    late: March<K>,
    c: Plane<K::Complex>,
    post: March<K>,
    v: Plane<K::Complex>,
    r: Result<(), PropagateError<M::Refusal>>,
) -> bool {
    let n = pre.n as int;
    let transform = PropagateError::<M::Refusal>::TransformShape;
    let first = mid == (March { cached: mid.cached, ..pre }) && (mid.cached matches Some(k)
        && is_diffracted(pre.optics, n, half, u, k, a));
    let second = first && is_slab(pre.optics, pre.n, medium, z_slab, dz, a, Ok(b));
    let third = second && late == (March { cached: late.cached, ..mid })
        && (late.cached matches Some(k) && is_diffracted(pre.optics, n, half, b, k, c));
    &&& call_ensures(K::half, (&pre.optics, dz), half)
    &&& match r {
        Ok(_) => third && is_edged(late, c, post, v),
        Err(e) => {
            ||| e == transform && post == (March { cached: post.cached, ..pre }) && v == u
                && is_diffraction_refused(pre, half, u, post)
            ||| first && post == mid && v == a && is_slab(
                pre.optics,
                pre.n,
                medium,
                z_slab,
                dz,
                a,
                Err(e),
            )
            ||| second && e == transform && post == (March { cached: post.cached, ..mid }) && v == b
                && is_diffraction_refused(mid, half, b, post)
        },
    }
}

/// What a step may do.
pub open spec fn is_step<K: Optics, M: Medium<K>>(
    pre: March<K>,
    medium: M,
    z_slab: usize,
    dz: K::Real,
    u: Plane<K::Complex>,
    post: March<K>,
    v: Plane<K::Complex>,
    r: Result<(), PropagateError<M::Refusal>>,
) -> bool {
    exists|
        half: K::Real,
        mid: March<K>,
        a: Plane<K::Complex>,
        b: Plane<K::Complex>,
        late: March<K>,
        c: Plane<K::Complex>,
    | #[trigger]
        is_staged(pre, medium, z_slab, dz, u, half, mid, a, b, late, c, post, v, r)
}

impl<K: Optics> Propagator<K> {
    /// Whether the phase of `dn` over `dz` jumps too far between neighbours of a
    /// row.
    fn phase_is_aliased(&self, dn: &Plane<K::Real>, dz: K::Real) -> (aliased: bool)
        requires
            self.wf(),
            is_square(*dn, self@.n as int),
        ensures
            is_phase_check(self@.optics, self@.n, *dn, dz, aliased),
    {
        let optics: &K = &self.optics;
        let zero: K::Real = optics.zero();
        let step = |s: K::Real, j: usize, i: usize, v: K::Real| -> (next: K::Real)
            requires
                dn.wf(),
                j < dn@.len(),
                i < dn.spec_width(),
            ensures
                raises_jump(*optics, dn@, dz)(s, j as int, i as int, v, next),
            {
                if i == 0 {
                    s
                } else {
                    let jump: K::Real = optics.phase_jump(*dn.at(j, i - 1), v, dz);
                    if optics.exceeds(jump, s) {
                        jump
                    } else {
                        s
                    }
                }
            };
        let jump: K::Real = dn.fold(zero, step);
        proof {
            lemma_fold_widens(
                dn@,
                dn.spec_width(),
                zero,
                steps_of(step),
                raises_jump(*optics, dn@, dz),
                jump,
            );
        }
        optics.is_aliased(jump)
    }

    /// Apply a slab's phase and loss to an amplitude.
    fn apply_slab<M: Medium<K>>(
        &self,
        field: &Field<K::Real, K::Complex>,
        medium: &M,
        z_slab: usize,
        dz: K::Real,
    ) -> (r: Result<Plane<K::Complex>, PropagateError<M::Refusal>>)
        requires
            self.wf(),
            field.valid(),
            field.grid.n == self@.n,
        ensures
            is_slab(self@.optics, self@.n, *medium, z_slab, dz, field.u, r),
            r matches Ok(v) ==> is_square(v, self@.n as int),
    {
        let n: usize = self.n;
        let ghost u = field.u;
        let optics: &K = &self.optics;
        let needs: bool = medium.needs_intensity(optics);
        let index: Result<Plane<K::Real>, M::Refusal> = if needs {
            let p: Plane<K::Real> = field.intensity(optics);
            proof {
                assert(is_intensity(*optics, n as int, field.u, p));
            }
            medium.index_response(optics, z_slab, &p, dz)
        } else {
            Ok(medium.index_perturbation(optics, z_slab))
        };
        let ghost answered = index;
        let ghost none: Option<Plane<K::Real>> = None;
        proof {
            assert(is_index(*optics, n as int, *medium, z_slab, dz, u, needs, answered));
        }
        let dn: Plane<K::Real> = match index {
            Ok(dn) => dn,
            Err(e) => {
                proof {
                    assert(is_slab_answer(
                        *optics,
                        n as nat,
                        *medium,
                        z_slab,
                        dz,
                        u,
                        needs,
                        answered,
                        none,
                        Err(PropagateError::Medium(e)),
                    ));
                }
                return Err(PropagateError::Medium(e));
            },
        };
        if !dn.has_shape(n, n) {
            proof {
                assert(is_slab_answer(
                    *optics,
                    n as nat,
                    *medium,
                    z_slab,
                    dz,
                    u,
                    needs,
                    answered,
                    none,
                    Err(PropagateError::IndexShape),
                ));
            }
            return Err(PropagateError::IndexShape);
        }
        if needs {
            if self.phase_is_aliased(&dn, dz) {
                proof {
                    assert(is_slab_answer(
                        *optics,
                        n as nat,
                        *medium,
                        z_slab,
                        dz,
                        u,
                        needs,
                        answered,
                        none,
                        Err(PropagateError::PhaseUnderResolved),
                    ));
                }
                return Err(PropagateError::PhaseUnderResolved);
            }
        }
        let loss: Option<Plane<K::Real>> = medium.extinction(optics, z_slab);
        let ghost lost = loss;
        let v: Plane<K::Complex> = match loss {
            Some(alpha) => {
                if !alpha.has_shape(n, n) {
                    proof {
                        assert(is_slab_answer(
                            *optics,
                            n as nat,
                            *medium,
                            z_slab,
                            dz,
                            u,
                            needs,
                            answered,
                            lost,
                            Err(PropagateError::ExtinctionShape),
                        ));
                    }
                    return Err(PropagateError::ExtinctionShape);
                }
                let entry = |j: usize, i: usize| -> (c: K::Complex)
                    requires
                        j < n,
                        i < n,
                        field.u.wf(),
                        field.u@.len() == n,
                        field.u.spec_width() == n,
                        dn.wf(),
                        dn@.len() == n,
                        dn.spec_width() == n,
                        alpha.wf(),
                        alpha@.len() == n,
                        alpha.spec_width() == n,
                    ensures
                        call_ensures(
                            K::retard_and_decay,
                            (
                                optics,
                                field.u@[j as int][i as int],
                                dn@[j as int][i as int],
                                alpha@[j as int][i as int],
                                dz,
                            ),
                            c,
                        ),
                    {
                        optics.retard_and_decay(
                            *field.u.at(j, i),
                            *dn.at(j, i),
                            *alpha.at(j, i),
                            dz,
                        )
                    };
                Plane::from_fn(n, n, entry)
            },
            None => {
                let entry = |j: usize, i: usize| -> (c: K::Complex)
                    requires
                        j < n,
                        i < n,
                        field.u.wf(),
                        field.u@.len() == n,
                        field.u.spec_width() == n,
                        dn.wf(),
                        dn@.len() == n,
                        dn.spec_width() == n,
                    ensures
                        call_ensures(
                            K::retard,
                            (
                                optics,
                                field.u@[j as int][i as int],
                                dn@[j as int][i as int],
                                dz,
                            ),
                            c,
                        ),
                    { optics.retard(*field.u.at(j, i), *dn.at(j, i), dz) };
                Plane::from_fn(n, n, entry)
            },
        };
        proof {
            assert(is_passed(*optics, n as int, dn, lost, dz, u, v));
            assert(is_slab_answer(
                *optics,
                n as nat,
                *medium,
                z_slab,
                dz,
                u,
                needs,
                answered,
                lost,
                Ok(v),
            ));
        }
        Ok(v)
    }

    /// Pass the absorbing edge and book what it takes.
    fn apply_edge(&mut self, field: &mut Field<K::Real, K::Complex>)
        requires
            old(self).wf(),
            old(field).valid(),
            old(field).grid.n == old(self)@.n,
        ensures
            final(self).wf(),
            final(field).valid(),
            final(field).grid == old(field).grid,
            final(field).wavelength == old(field).wavelength,
            is_edged(old(self)@, old(field).u, final(self)@, final(field).u),
    {
        if self.apply_boundary {
            let ghost pre = self@;
            let before: K::Real = field.power(&self.optics);
            let optics: &K = &self.optics;
            let masked = |u: K::Complex, m: K::Real| -> (v: K::Complex)
                ensures
                    call_ensures(K::mask, (optics, u, m), v),
                { optics.mask(u, m) };
            let v: Plane<K::Complex> = field.u.zip_map(&self.boundary, masked);
            field.u = v;
            let after: K::Real = field.power(&self.optics);
            self.guard_absorbed = self.optics.absorb(self.guard_absorbed, before, after);
            proof {
                let profile = choose|profile: Seq<K::Real>| #[trigger]
                    is_edge(pre.optics, pre.n as int, profile, pre.edge);
                assert(is_edge(self@.optics, self@.n as int, profile, self@.edge));
            }
        }
    }

    /// One symmetric split step over the slab `z_slab` of thickness `dz`.
    pub fn step<M: Medium<K>>(
        &mut self,
        field: &mut Field<K::Real, K::Complex>,
        medium: &M,
        z_slab: usize,
        dz: K::Real,
    ) -> (r: Result<(), PropagateError<M::Refusal>>)
        requires
            old(self).wf(),
            old(field).valid(),
            old(field).grid.n == old(self)@.n,
        ensures
            final(self).wf(),
            final(field).valid(),
            final(field).grid == old(field).grid,
            final(field).wavelength == old(field).wavelength,
            final(self)@.n == old(self)@.n,
            final(self)@.optics == old(self)@.optics,
            is_step(
                old(self)@,
                *medium,
                z_slab,
                dz,
                old(field).u,
                final(self)@,
                final(field).u,
                r,
            ),
    {
        let ghost pre = self@;
        let ghost u = field.u;
        let half: K::Real = self.optics.half(dz);
        match self.diffract(field, half) {
            Ok(_) => {},
            Err(_) => {
                proof {
                    assert(is_staged(
                        pre,
                        *medium,
                        z_slab,
                        dz,
                        u,
                        half,
                        self@,
                        u,
                        u,
                        self@,
                        u,
                        self@,
                        field.u,
                        Err(PropagateError::TransformShape),
                    ));
                }
                return Err(PropagateError::TransformShape);
            },
        }
        let ghost mid = self@;
        let ghost a = field.u;
        let b: Plane<K::Complex> = match self.apply_slab(field, medium, z_slab, dz) {
            Ok(b) => b,
            Err(e) => {
                proof {
                    assert(is_staged(
                        pre,
                        *medium,
                        z_slab,
                        dz,
                        u,
                        half,
                        mid,
                        a,
                        a,
                        mid,
                        a,
                        self@,
                        field.u,
                        Err(e),
                    ));
                }
                return Err(e);
            },
        };
        let ghost passed = b;
        field.u = b;
        match self.diffract(field, half) {
            Ok(_) => {},
            Err(_) => {
                proof {
                    assert(is_staged(
                        pre,
                        *medium,
                        z_slab,
                        dz,
                        u,
                        half,
                        mid,
                        a,
                        passed,
                        self@,
                        passed,
                        self@,
                        field.u,
                        Err(PropagateError::TransformShape),
                    ));
                }
                return Err(PropagateError::TransformShape);
            },
        }
        let ghost late = self@;
        let ghost c = field.u;
        self.apply_edge(field);
        proof {
            assert(is_staged(
                pre,
                *medium,
                z_slab,
                dz,
                u,
                half,
                mid,
                a,
                passed,
                late,
                c,
                self@,
                field.u,
                Ok(()),
            ));
        }
        Ok(())
    }
}

/// Running sums of the power inside the interior and of the whole.
pub open spec fn adds_containment<K: Optics>(optics: K) -> spec_fn(
    (K::Real, K::Real),
    int,
    int,
    K::Complex,
    (K::Real, K::Real),
) -> bool {
    |s: (K::Real, K::Real), j: int, i: int, u: K::Complex, next: (K::Real, K::Real)|
        exists|p: K::Real|
            {
                &&& #[trigger] call_ensures(K::intensity, (&optics, u), p)
                &&& call_ensures(K::plus, (&optics, s.1, p), next.1)
                &&& is_inner_sum(optics, j, i, s.0, p, next.0)
            }
}

/// `next` is `s` with `p` added if sample `[j, i]` is in the interior along both
/// axes.
pub open spec fn is_inner_sum<K: Optics>(
    optics: K,
    j: int,
    i: int,
    s: K::Real,
    p: K::Real,
    next: K::Real,
) -> bool {
    ||| {
        &&& call_ensures(K::is_interior, (&optics, i as usize), true)
        &&& call_ensures(K::is_interior, (&optics, j as usize), true)
        &&& call_ensures(K::plus, (&optics, s, p), next)
    }
    ||| {
        &&& call_ensures(K::is_interior, (&optics, i as usize), false) || call_ensures(
            K::is_interior,
            (&optics, j as usize),
            false,
        )
        &&& next == s
    }
}

/// Running sums of the power and its two first moments.
pub open spec fn adds_moments<K: Optics>(optics: K) -> spec_fn(
    (K::Real, K::Real, K::Real),
    int,
    int,
    K::Complex,
    (K::Real, K::Real, K::Real),
) -> bool {
    |s: (K::Real, K::Real, K::Real), j: int, i: int, u: K::Complex, next: (K::Real, K::Real, K::Real)|
        exists|p: K::Real|
            {
                &&& #[trigger] call_ensures(K::intensity, (&optics, u), p)
                &&& call_ensures(K::plus, (&optics, s.0, p), next.0)
                &&& call_ensures(K::add_moment, (&optics, s.1, p, i as usize), next.1)
                &&& call_ensures(K::add_moment, (&optics, s.2, p, j as usize), next.2)
            }
}

/// Running sums of the two second moments about a centre.
pub open spec fn adds_spreads<K: Optics>(optics: K, cx: K::Real, cy: K::Real) -> spec_fn(
    (K::Real, K::Real),
    int,
    int,
    K::Complex,
    (K::Real, K::Real),
) -> bool {
    |s: (K::Real, K::Real), j: int, i: int, u: K::Complex, next: (K::Real, K::Real)|
        exists|p: K::Real|
            {
                &&& #[trigger] call_ensures(K::intensity, (&optics, u), p)
                &&& call_ensures(K::add_spread, (&optics, s.0, p, i as usize, cx), next.0)
                &&& call_ensures(K::add_spread, (&optics, s.1, p, j as usize, cy), next.1)
            }
}

/// `total` and `centre` are the summed intensity and, unless there is none, the
/// intensity centroid.
pub open spec fn is_centroid<K: Optics>(
    optics: K,
    rows: Seq<Seq<K::Complex>>,
    n: nat,
    total: K::Real,
    centre: Option<(K::Real, K::Real)>,
) -> bool {
    exists|zero: K::Real, mx: K::Real, my: K::Real|
        {
            &&& #[trigger] call_ensures(K::zero, (&optics,), zero)
            &&& #[trigger] is_fold(
                rows,
                n,
                (zero, zero, zero),
                adds_moments(optics),
                (total, mx, my),
            )
            &&& match centre {
                None => call_ensures(K::has_power, (&optics, total), false),
                Some((cx, cy)) => {
                    &&& call_ensures(K::has_power, (&optics, total), true)
                    &&& call_ensures(K::ratio, (&optics, mx, total), cx)
                    &&& call_ensures(K::ratio, (&optics, my, total), cy)
                },
            }
        }
}

/// `widths` are the second-moment widths, unless there is no power.
pub open spec fn is_beam_width<K: Optics>(
    optics: K,
    rows: Seq<Seq<K::Complex>>,
    n: nat,
    widths: Option<(K::Real, K::Real)>,
) -> bool {
    exists|total: K::Real, centre: Option<(K::Real, K::Real)>|
        {
            &&& #[trigger] is_centroid(optics, rows, n, total, centre)
            &&& match centre {
                None => widths is None,
                Some((cx, cy)) => widths matches Some((wx, wy)) && are_widths(
                    optics,
                    rows,
                    n,
                    total,
                    cx,
                    cy,
                    wx,
                    wy,
                ),
            }
        }
}

pub open spec fn are_widths<K: Optics>(
    optics: K,
    rows: Seq<Seq<K::Complex>>,
    n: nat,
    total: K::Real,
    cx: K::Real,
    cy: K::Real,
    wx: K::Real,
    wy: K::Real,
) -> bool {
    exists|zero: K::Real, vx: K::Real, vy: K::Real|
        {
            &&& #[trigger] call_ensures(K::zero, (&optics,), zero)
            &&& #[trigger] is_fold(rows, n, (zero, zero), adds_spreads(optics, cx, cy), (vx, vy))
            &&& call_ensures(K::width, (&optics, vx, total), wx)
            &&& call_ensures(K::width, (&optics, vy, total), wy)
        }
}

/// Summed intensity and its centroid; no centroid without power.
fn moments<K: Optics>(optics: &K, field: &Field<K::Real, K::Complex>) -> (r: (
    K::Real,
    Option<(K::Real, K::Real)>,
))
    requires
        field.valid(),
    ensures
        is_centroid(*optics, field.u@, field.grid.n as nat, r.0, r.1),
{
    let zero: K::Real = optics.zero();
    let step = |
        s: (K::Real, K::Real, K::Real),
        j: usize,
        i: usize,
        u: K::Complex,
    | -> (next: (K::Real, K::Real, K::Real))
        ensures
            adds_moments(*optics)(s, j as int, i as int, u, next),
        {
            let p: K::Real = optics.intensity(u);
            (optics.plus(s.0, p), optics.add_moment(s.1, p, i), optics.add_moment(s.2, p, j))
        };
    let m: (K::Real, K::Real, K::Real) = field.u.fold((zero, zero, zero), step);
    proof {
        lemma_fold_widens(
            field.u@,
            field.u.spec_width(),
            (zero, zero, zero),
            steps_of(step),
            adds_moments(*optics),
            m,
        );
        assert(is_fold(
            field.u@,
            field.grid.n as nat,
            (zero, zero, zero),
            adds_moments(*optics),
            (m.0, m.1, m.2),
        ));
    }
    if !optics.has_power(m.0) {
        return (m.0, None);
    }
    (m.0, Some((optics.ratio(m.1, m.0), optics.ratio(m.2, m.0))))
}

/// Intensity centroid of a field; `None` if it carries no power.
pub fn centroid<K: Optics>(optics: &K, field: &Field<K::Real, K::Complex>) -> (r: Option<
    (K::Real, K::Real),
>)
    requires
        field.valid(),
    ensures
        exists|total: K::Real| #[trigger]
            is_centroid(*optics, field.u@, field.grid.n as nat, total, r),
{
    let (total, centre) = moments(optics, field);
    proof {
        assert(is_centroid(*optics, field.u@, field.grid.n as nat, total, centre));
    }
    centre
}

/// Second-moment widths of a field; `None` if it carries no power.
pub fn beam_width<K: Optics>(optics: &K, field: &Field<K::Real, K::Complex>) -> (r: Option<
    (K::Real, K::Real),
>)
    requires
        field.valid(),
    ensures
        is_beam_width(*optics, field.u@, field.grid.n as nat, r),
{
    let (total, centre) = moments(optics, field);
    match centre {
        None => None,
        Some((cx, cy)) => {
            let zero: K::Real = optics.zero();
            let step = |s: (K::Real, K::Real), j: usize, i: usize, u: K::Complex| -> (next: (
                K::Real,
                K::Real,
            ))
                ensures
                    adds_spreads(*optics, cx, cy)(s, j as int, i as int, u, next),
                {
                    let p: K::Real = optics.intensity(u);
                    (optics.add_spread(s.0, p, i, cx), optics.add_spread(s.1, p, j, cy))
                };
            let v: (K::Real, K::Real) = field.u.fold((zero, zero), step);
            proof {
                lemma_fold_widens(
                    field.u@,
                    field.u.spec_width(),
                    (zero, zero),
                    steps_of(step),
                    adds_spreads(*optics, cx, cy),
                    v,
                );
                assert(is_fold(
                    field.u@,
                    field.grid.n as nat,
                    (zero, zero),
                    adds_spreads(*optics, cx, cy),
                    (v.0, v.1),
                ));
            }
            let wx: K::Real = optics.width(v.0, total);
            let wy: K::Real = optics.width(v.1, total);
            proof {
                assert(are_widths(
                    *optics,
                    field.u@,
                    field.grid.n as nat,
                    total,
                    cx,
                    cy,
                    wx,
                    wy,
                ));
                assert(is_centroid(*optics, field.u@, field.grid.n as nat, total, Some((cx, cy))));
            }
            Some((wx, wy))
        },
    }
}

/// The power inside the interior and the whole power of a field.
pub open spec fn are_containment_sums<K: Optics>(
    optics: K,
    rows: Seq<Seq<K::Complex>>,
    n: nat,
    inside: K::Real,
    total: K::Real,
) -> bool {
    exists|zero: K::Real|
        #[trigger] call_ensures(K::zero, (&optics,), zero) && is_fold(
            rows,
            n,
            (zero, zero),
            adds_containment(optics),
            (inside, total),
        )
}

/// Whether a field is on the propagator's grid, as the propagator found it.
pub open spec fn is_grid_check<K: Optics>(pre: March<K>, grid: Grid<K::Real>, same: bool) -> bool {
    if grid.n != pre.n {
        !same
    } else {
        exists|dx: K::Real| #[trigger]
            call_ensures(K::spacing, (&pre.optics,), dx) && call_ensures(
                K::same_length,
                (&pre.optics, dx, grid.dx),
                same,
            )
    }
}

pub open spec fn is_wavelength_check<K: Optics>(
    pre: March<K>,
    wavelength: K::Real,
    same: bool,
) -> bool {
    exists|own: K::Real| #[trigger]
        call_ensures(K::wavelength, (&pre.optics,), own) && call_ensures(
            K::same_length,
            (&pre.optics, own, wavelength),
            same,
        )
}

/// Whether the narrower of the two beam widths spans enough samples.
pub open spec fn is_resolution_check<K: Optics>(
    optics: K,
    rows: Seq<Seq<K::Complex>>,
    n: nat,
    resolved: bool,
) -> bool {
    exists|wx: K::Real, wy: K::Real, w: K::Real|
        {
            &&& is_beam_width(optics, rows, n, Some((wx, wy)))
            &&& #[trigger] call_ensures(K::smaller, (&optics, wx, wy), w)
            &&& call_ensures(K::is_resolved, (&optics, w), resolved)
        }
}

/// What [`Propagator::check_field`] may return: the checks in their order, each
/// refusal after those before it have passed.
pub open spec fn is_field_check<K: Optics, E>(
    pre: March<K>,
    field: Field<K::Real, K::Complex>,
    inside: K::Real,
    total: K::Real,
    r: Result<(), PropagateError<E>>,
) -> bool {
    let optics = pre.optics;
    let placed = is_grid_check(pre, field.grid, true);
    let tuned = placed && is_wavelength_check(pre, field.wavelength, true);
    let summed = tuned && are_containment_sums(optics, field.u@, pre.n, inside, total);
    let lit = summed && call_ensures(K::has_power, (&optics, total), true);
    let contained = lit && call_ensures(K::is_contained, (&optics, inside, total), true);
    match r {
        Ok(_) => contained && is_resolution_check(optics, field.u@, pre.n, true),
        Err(PropagateError::GridMismatch) => is_grid_check(pre, field.grid, false),
        Err(PropagateError::WavelengthMismatch) => {
            placed && is_wavelength_check(pre, field.wavelength, false)
        },
        Err(PropagateError::NoPower) => {
            ||| summed && call_ensures(K::has_power, (&optics, total), false)
            ||| contained && is_beam_width(optics, field.u@, pre.n, None)
        },
        Err(PropagateError::NotContained) => {
            lit && call_ensures(K::is_contained, (&optics, inside, total), false)
        },
        Err(PropagateError::UnderResolved) => {
            contained && is_resolution_check(optics, field.u@, pre.n, false)
        },
        _ => false,
    }
}

/// What a run's guards may return before the first step.
pub open spec fn is_run_guard<K: Optics, M: Medium<K>>(
    pre: March<K>,
    field: Field<K::Real, K::Complex>,
    medium: M,
    dz: K::Real,
    first_slab: usize,
    n_steps: usize,
    r: Result<(), PropagateError<M::Refusal>>,
) -> bool {
    ||| {
        &&& call_ensures(K::is_positive, (&pre.optics, dz), false)
        &&& r == Err::<(), _>(PropagateError::<M::Refusal>::BadStepLength)
    }
    ||| {
        &&& call_ensures(K::is_positive, (&pre.optics, dz), true)
        &&& exists|slabs: Option<usize>|
            {
                &&& #[trigger] call_ensures(<M as Medium<K>>::slab_count, (&medium, &pre.optics), slabs)
                &&& if slabs matches Some(max) && first_slab + n_steps > max {
                    r == Err::<(), _>(
                        PropagateError::<M::Refusal>::BeyondMedium {
                            first_slab,
                            n_steps,
                            slabs: slabs->0,
                        },
                    )
                } else {
                    exists|inside: K::Real, total: K::Real| #[trigger]
                        is_field_check::<K, M::Refusal>(pre, field, inside, total, r)
                }
            }
    }
}

/// The propagator and the amplitude after each of the first steps of a run.
pub open spec fn is_run<K: Optics, M: Medium<K>>(
    pre: March<K>,
    medium: M,
    dz: K::Real,
    first_slab: usize,
    u: Plane<K::Complex>,
    trace: Seq<(March<K>, Plane<K::Complex>)>,
) -> bool {
    &&& trace.len() > 0
    &&& trace[0] == (pre, u)
    &&& forall|k: int|
        0 <= k < trace.len() - 1 ==> #[trigger] is_step_at(medium, dz, first_slab, trace, k)
}

/// Step `k` of a run leads from `trace[k]` to `trace[k + 1]`.
pub open spec fn is_step_at<K: Optics, M: Medium<K>>(
    medium: M,
    dz: K::Real,
    first_slab: usize,
    trace: Seq<(March<K>, Plane<K::Complex>)>,
    k: int,
) -> bool {
    is_step(
        trace[k].0,
        medium,
        (first_slab + k) as usize,
        dz,
        trace[k].1,
        trace[k + 1].0,
        trace[k + 1].1,
        Ok(()),
    )
}

/// `seen[k]` is what the observer made of the field after step `k`.
pub open spec fn are_observed<K: Optics, O, F: Fn(usize, &Field<K::Real, K::Complex>) -> O>(
    on_step: F,
    first_slab: usize,
    grid: Grid<K::Real>,
    wavelength: K::Real,
    trace: Seq<(March<K>, Plane<K::Complex>)>,
    seen: Seq<O>,
) -> bool {
    &&& seen.len() == trace.len() - 1
    &&& forall|k: int|
        #![trigger seen[k]]
        0 <= k < seen.len() ==> call_ensures(
            on_step,
            ((first_slab + k) as usize, &(Field { grid, wavelength, u: trace[k + 1].1 })),
            seen[k],
        )
}

/// What a run may do: be refused before the first step, or step until the end
/// or a refusal, observing the field after each step.
pub open spec fn is_propagation<
    K: Optics,
    M: Medium<K>,
    O,
    F: Fn(usize, &Field<K::Real, K::Complex>) -> O,
>(
    pre: March<K>,
    field: Field<K::Real, K::Complex>,
    medium: M,
    dz: K::Real,
    first_slab: usize,
    n_steps: usize,
    on_step: F,
    post: March<K>,
    after: Field<K::Real, K::Complex>,
    r: Result<Vec<O>, PropagateError<M::Refusal>>,
) -> bool {
    ||| {
        &&& r matches Err(e) && is_run_guard(pre, field, medium, dz, first_slab, n_steps, Err(e))
        &&& post == pre
        &&& after.u == field.u
    }
    ||| {
        &&& is_run_guard(pre, field, medium, dz, first_slab, n_steps, Ok(()))
        &&& exists|trace: Seq<(March<K>, Plane<K::Complex>)>|
            {
                &&& #[trigger] is_run(pre, medium, dz, first_slab, field.u, trace)
                &&& match r {
                    Ok(seen) => {
                        &&& trace.len() == n_steps + 1
                        &&& trace.last() == (post, after.u)
                        &&& are_observed::<K, O, F>(
                            on_step,
                            first_slab,
                            field.grid,
                            field.wavelength,
                            trace,
                            seen@,
                        )
                    },
                    Err(e) => {
                        &&& trace.len() <= n_steps
                        &&& is_step(
                            trace.last().0,
                            medium,
                            (first_slab + trace.len() - 1) as usize,
                            dz,
                            trace.last().1,
                            post,
                            after.u,
                            Err(e),
                        )
                    },
                }
            }
    }
}

impl<K: Optics> Propagator<K> {
    /// Whether a field may be propagated: on this grid, at this wavelength, with
    /// power, contained in the interior of the edge, and resolved.
    pub fn check_field<E>(&self, field: &Field<K::Real, K::Complex>) -> (r: Result<
        (),
        PropagateError<E>,
    >)
        requires
            self.wf(),
            field.valid(),
        ensures
            exists|inside: K::Real, total: K::Real| #[trigger]
                is_field_check::<K, E>(self@, *field, inside, total, r),
            r is Ok ==> field.grid.n == self@.n,
    {
        let optics: &K = &self.optics;
        let ghost pre = self@;
        let zero: K::Real = optics.zero();
        let dx: K::Real = optics.spacing();
        let same: bool = field.grid.n == self.n && optics.same_length(dx, field.grid.dx);
        if !same {
            proof {
                assert(is_field_check::<K, E>(
                    pre,
                    *field,
                    zero,
                    zero,
                    Err(PropagateError::GridMismatch),
                ));
            }
            return Err(PropagateError::GridMismatch);
        }
        proof {
            assert(is_grid_check(pre, field.grid, true));
        }
        let own: K::Real = optics.wavelength();
        if !optics.same_length(own, field.wavelength) {
            proof {
                assert(is_field_check::<K, E>(
                    pre,
                    *field,
                    zero,
                    zero,
                    Err(PropagateError::WavelengthMismatch),
                ));
            }
            return Err(PropagateError::WavelengthMismatch);
        }
        let step = |s: (K::Real, K::Real), j: usize, i: usize, u: K::Complex| -> (next: (
            K::Real,
            K::Real,
        ))
            ensures
                adds_containment(*optics)(s, j as int, i as int, u, next),
            {
                let p: K::Real = optics.intensity(u);
                let total: K::Real = optics.plus(s.1, p);
                if optics.is_interior(i) {
                    if optics.is_interior(j) {
                        (optics.plus(s.0, p), total)
                    } else {
                        (s.0, total)
                    }
                } else {
                    (s.0, total)
                }
            };
        let sums: (K::Real, K::Real) = field.u.fold((zero, zero), step);
        let inside: K::Real = sums.0;
        let total: K::Real = sums.1;
        proof {
            lemma_fold_widens(
                field.u@,
                field.u.spec_width(),
                (zero, zero),
                steps_of(step),
                adds_containment(*optics),
                sums,
            );
            assert(sums == (inside, total));
            assert(are_containment_sums(*optics, field.u@, pre.n, inside, total));
        }
        if !optics.has_power(total) {
            proof {
                assert(is_field_check::<K, E>(
                    pre,
                    *field,
                    inside,
                    total,
                    Err(PropagateError::NoPower),
                ));
            }
            return Err(PropagateError::NoPower);
        }
        if !optics.is_contained(inside, total) {
            proof {
                assert(is_field_check::<K, E>(
                    pre,
                    *field,
                    inside,
                    total,
                    Err(PropagateError::NotContained),
                ));
            }
            return Err(PropagateError::NotContained);
        }
        match beam_width(optics, field) {
            None => {
                proof {
                    assert(is_field_check::<K, E>(
                        pre,
                        *field,
                        inside,
                        total,
                        Err(PropagateError::NoPower),
                    ));
                }
                Err(PropagateError::NoPower)
            },
            Some((wx, wy)) => {
                let w: K::Real = optics.smaller(wx, wy);
                if !optics.is_resolved(w) {
                    proof {
                        assert(is_resolution_check(*optics, field.u@, pre.n, false));
                        assert(is_field_check::<K, E>(
                            pre,
                            *field,
                            inside,
                            total,
                            Err(PropagateError::UnderResolved),
                        ));
                    }
                    return Err(PropagateError::UnderResolved);
                }
                proof {
                    assert(is_resolution_check(*optics, field.u@, pre.n, true));
                    assert(is_field_check::<K, E>(pre, *field, inside, total, Ok(())));
                }
                Ok(())
            },
        }
    }

    /// Advance the field by `n_steps` slabs of thickness `dz` from slab
    /// `first_slab`, and return what `on_step` made of the field after each.
    ///
    /// A run that would leave the slabs that the medium defines is refused
    /// before the first step.
    pub fn propagate<M: Medium<K>, O, F: Fn(usize, &Field<K::Real, K::Complex>) -> O>(
        &mut self,
        field: &mut Field<K::Real, K::Complex>,
        medium: &M,
        dz: K::Real,
        first_slab: usize,
        n_steps: usize,
        on_step: F,
    ) -> (r: Result<Vec<O>, PropagateError<M::Refusal>>)
        requires
            old(self).wf(),
            old(field).valid(),
            first_slab + n_steps <= usize::MAX,
            forall|i: usize, f: &Field<K::Real, K::Complex>|
                f.valid() ==> #[trigger] call_requires(on_step, (i, f)),
        ensures
            final(self).wf(),
            final(field).valid(),
            final(field).grid == old(field).grid,
            final(field).wavelength == old(field).wavelength,
            is_propagation(
                old(self)@,
                *old(field),
                *medium,
                dz,
                first_slab,
                n_steps,
                on_step,
                final(self)@,
                *final(field),
                r,
            ),
    {
        let ghost pre = self@;
        let ghost start = *field;
        if !self.optics.is_positive(dz) {
            return Err(PropagateError::BadStepLength);
        }
        let slabs: Option<usize> = medium.slab_count(&self.optics);
        match slabs {
            Some(max) => {
                if first_slab + n_steps > max {
                    return Err(PropagateError::BeyondMedium { first_slab, n_steps, slabs: max });
                }
            },
            None => {},
        }
        let checked: Result<(), PropagateError<M::Refusal>> = self.check_field(field);
        match checked {
            Ok(_) => {},
            Err(e) => {
                return Err(e);
            },
        }
        proof {
            let unit: () = checked->Ok_0;
            assert(unit == ());
            assert(is_run_guard(pre, start, *medium, dz, first_slab, n_steps, Ok(())));
        }
        let mut seen: Vec<O> = Vec::with_capacity(n_steps);
        let ghost mut trace: Seq<(March<K>, Plane<K::Complex>)> = seq![(pre, start.u)];
        for i in 0..n_steps
            invariant
                pre == old(self)@,
                start == *old(field),
                self.wf(),
                field.valid(),
                field.grid == start.grid,
                field.wavelength == start.wavelength,
                field.grid.n == self@.n,
                first_slab + n_steps <= usize::MAX,
                forall|i: usize, f: &Field<K::Real, K::Complex>|
                    f.valid() ==> #[trigger] call_requires(on_step, (i, f)),
                is_run_guard(pre, start, *medium, dz, first_slab, n_steps, Ok(())),
                trace.len() == i + 1,
                trace.last() == (self@, field.u),
                is_run(pre, *medium, dz, first_slab, start.u, trace),
                are_observed::<K, O, F>(
                    on_step,
                    first_slab,
                    start.grid,
                    start.wavelength,
                    trace,
                    seen@,
                ),
        {
            let ghost before = self@;
            let ghost u = field.u;
            let stepped: Result<(), PropagateError<M::Refusal>> = self.step(
                field,
                medium,
                first_slab + i,
                dz,
            );
            match stepped {
                Ok(_) => {},
                Err(e) => {
                    return Err(e);
                },
            }
            let o: O = on_step(first_slab + i, &*field);
            proof {
                let unit: () = stepped->Ok_0;
                assert(unit == ());
                let longer = trace.push((self@, field.u));
                assert forall|k: int| 0 <= k < longer.len() - 1 implies #[trigger] is_step_at(
                    *medium,
                    dz,
                    first_slab,
                    longer,
                    k,
                ) by {
                    if k < trace.len() - 1 {
                        assert(is_step_at(*medium, dz, first_slab, trace, k));
                    }
                }
                let more = seen@.push(o);
                assert forall|k: int|
                    #![trigger more[k]]
                    0 <= k < more.len() implies call_ensures(
                    on_step,
                    (
                        (first_slab + k) as usize,
                        &(Field {
                            grid: start.grid,
                            wavelength: start.wavelength,
                            u: longer[k + 1].1,
                        }),
                    ),
                    more[k],
                ) by {
                    if k < seen@.len() {
                        assert(more[k] == seen@[k]);
                        assert(longer[k + 1] == trace[k + 1]);
                    } else {
                        assert(*field == (Field {
                            grid: start.grid,
                            wavelength: start.wavelength,
                            u: longer[k + 1].1,
                        }));
                    }
                }
                trace = longer;
            }
            seen.push(o);
        }
        Ok(seen)
    }
}

/// Reusing a kernel changes nothing: where lengths that are found to be the
/// same number are equal, a diffraction over `dz` is by the transfer function
/// for `dz` and the method for `dz`.
pub proof fn law_reused_kernel_is_the_kernel<K: Optics>(
    optics: K,
    n: int,
    dz: K::Real,
    u: Plane<K::Complex>,
    cached: CachedKernel<K::Real, K::Complex>,
    v: Plane<K::Complex>,
)
    requires
        is_diffracted(optics, n, dz, u, cached, v),
        forall|a: K::Real, b: K::Real| #[trigger]
            call_ensures(K::same_length, (&optics, a, b), true) ==> a == b,
    ensures
        exists|method: DiffractionMethod, h: Plane<K::Complex>|
            {
                &&& is_method_for(optics, dz, method)
                &&& #[trigger] is_kernel(optics, n, dz, method, h)
                &&& is_filtered(optics, n, h, u, v)
            },
{
    assert(is_kernel(optics, n, dz, cached.method, cached.h));
}

/// A run may be taken in parts: one from `first_slab`, followed by one from the
/// slab that the first ended at, is a run of both lengths together.
pub proof fn law_runs_compose<K: Optics, M: Medium<K>>(
    pre: March<K>,
    medium: M,
    dz: K::Real,
    first_slab: usize,
    u: Plane<K::Complex>,
    head: Seq<(March<K>, Plane<K::Complex>)>,
    tail: Seq<(March<K>, Plane<K::Complex>)>,
)
    requires
        is_run(pre, medium, dz, first_slab, u, head),
        first_slab + head.len() + tail.len() <= usize::MAX,
        is_run(
            head.last().0,
            medium,
            dz,
            (first_slab + head.len() - 1) as usize,
            head.last().1,
            tail,
        ),
    ensures
        is_run(pre, medium, dz, first_slab, u, head + tail.skip(1)),
        (head + tail.skip(1)).last() == tail.last(),
{
    let whole = head + tail.skip(1);
    let m = head.len() - 1;
    assert forall|k: int| 0 <= k < whole.len() - 1 implies #[trigger] is_step_at(
        medium,
        dz,
        first_slab,
        whole,
        k,
    ) by {
        if k < m {
            assert(is_step_at(medium, dz, first_slab, head, k));
            assert(whole[k] == head[k] && whole[k + 1] == head[k + 1]);
        } else {
            assert(is_step_at(medium, dz, (first_slab + m) as usize, tail, k - m));
            assert(whole[k] == tail[k - m]);
            assert(whole[k + 1] == tail[k - m + 1]);
            assert(((first_slab + m) as usize + (k - m)) as usize == (first_slab + k) as usize);
        }
    }
}

/// Without the absorbing edge a step takes no power off the book.
pub proof fn law_no_edge_absorbs_nothing<K: Optics, M: Medium<K>>(
    pre: March<K>,
    medium: M,
    z_slab: usize,
    dz: K::Real,
    u: Plane<K::Complex>,
    post: March<K>,
    v: Plane<K::Complex>,
    r: Result<(), PropagateError<M::Refusal>>,
)
    requires
        is_step(pre, medium, z_slab, dz, u, post, v, r),
        !pre.applies_edge,
    ensures
        post.absorbed == pre.absorbed,
        !post.applies_edge,
{
}

/// Vacuum is lossless and never refuses a beam: what a slab of it does to an
/// amplitude on its grid is the phase of a zero index perturbation.
pub proof fn law_vacuum_slab_is_lossless<K: Optics>(
    optics: K,
    n: nat,
    medium: crate::medium::Vacuum,
    z_slab: usize,
    dz: K::Real,
    u: Plane<K::Complex>,
    r: Result<Plane<K::Complex>, PropagateError<()>>,
)
    requires
        is_slab(optics, n, medium, z_slab, dz, u, r),
        medium.spec_n() == n,
    ensures
        r matches Ok(v) && exists|zero: K::Real, dn: Plane<K::Real>|
            {
                &&& #[trigger] call_ensures(K::zero, (&optics,), zero)
                &&& #[trigger] crate::medium::is_uniform(dn, n as int, zero)
                &&& is_passed(optics, n as int, dn, None, dz, u, v)
            },
{
}

/// Power is exact in a measure of amplitudes and of numbers, and nothing but the
/// edge takes any on the grid: neither a diffraction over half a slab nor a slab of
/// the medium.
pub open spec fn loses_at_the_edge_only<K: Optics, M: Medium<K>>(
    optics: K,
    n: nat,
    medium: M,
    dz: K::Real,
    size: spec_fn(Seq<Seq<K::Complex>>) -> real,
    worth: spec_fn(K::Real) -> real,
) -> bool {
    &&& forall|rows: Seq<Seq<K::Complex>>, p: K::Real| #[trigger]
        is_power(optics, rows, n, p) ==> worth(p) == size(rows)
    &&& forall|total: K::Real, before: K::Real, after: K::Real, t: K::Real| #[trigger]
        call_ensures(K::absorb, (&optics, total, before, after), t) ==> worth(t) == worth(total)
            + worth(before) - worth(after)
    &&& forall|
        half: K::Real,
        u: Plane<K::Complex>,
        k: CachedKernel<K::Real, K::Complex>,
        v: Plane<K::Complex>,
    | #[trigger]
        is_diffracted(optics, n as int, half, u, k, v) && call_ensures(K::half, (&optics, dz), half)
            && is_square(u, n as int) ==> size(v@) == size(u@)
    &&& forall|z_slab: usize, u: Plane<K::Complex>, v: Plane<K::Complex>| #[trigger]
        is_slab(optics, n, medium, z_slab, dz, u, Ok(v)) && is_square(u, n as int) ==> size(v@)
            == size(u@)
}

proof fn lemma_edge_books_the_step<K: Optics, M: Medium<K>>(
    pre: March<K>,
    medium: M,
    z_slab: usize,
    dz: K::Real,
    u: Plane<K::Complex>,
    post: March<K>,
    v: Plane<K::Complex>,
    size: spec_fn(Seq<Seq<K::Complex>>) -> real,
    worth: spec_fn(K::Real) -> real,
)
    requires
        is_square(u, pre.n as int),
        is_step(pre, medium, z_slab, dz, u, post, v, Ok(())),
        loses_at_the_edge_only(pre.optics, pre.n, medium, dz, size, worth),
    ensures
        (post.optics, post.n) == (pre.optics, pre.n),
        is_square(v, pre.n as int),
        size(v@) + worth(post.absorbed) == size(u@) + worth(pre.absorbed),
{
    let (half, mid, a, b, late, c) = choose|
        half: K::Real,
        mid: March<K>,
        a: Plane<K::Complex>,
        b: Plane<K::Complex>,
        late: March<K>,
        c: Plane<K::Complex>,
    | #[trigger]
        is_staged(pre, medium, z_slab, dz, u, half, mid, a, b, late, c, post, v, Ok(()));
    assert(is_diffracted(pre.optics, pre.n as int, half, u, mid.cached->0, a));
    assert(is_diffracted(pre.optics, pre.n as int, half, b, late.cached->0, c));
    assert(size(c@) == size(u@));
}

/// The guard band accounts for the whole deficit: over a run in which neither
/// diffraction nor the medium takes any power, what the beam has lost is what the
/// edge has booked.
pub proof fn law_guard_band_accounts_for_the_deficit<K: Optics, M: Medium<K>>(
    pre: March<K>,
    medium: M,
    dz: K::Real,
    first_slab: usize,
    u: Plane<K::Complex>,
    trace: Seq<(March<K>, Plane<K::Complex>)>,
    size: spec_fn(Seq<Seq<K::Complex>>) -> real,
    worth: spec_fn(K::Real) -> real,
)
    requires
        is_square(u, pre.n as int),
        is_run(pre, medium, dz, first_slab, u, trace),
        loses_at_the_edge_only(pre.optics, pre.n, medium, dz, size, worth),
    ensures
        (trace.last().0.optics, trace.last().0.n) == (pre.optics, pre.n),
        is_square(trace.last().1, pre.n as int),
        size(u@) - size(trace.last().1@) == worth(trace.last().0.absorbed) - worth(pre.absorbed),
    decreases trace.len(),
{
    if trace.len() > 1 {
        let head = trace.drop_last();
        let k = trace.len() - 2;
        assert forall|i: int| 0 <= i < head.len() - 1 implies #[trigger] is_step_at(
            medium,
            dz,
            first_slab,
            head,
            i,
        ) by {
            assert(is_step_at(medium, dz, first_slab, trace, i));
        }
        law_guard_band_accounts_for_the_deficit(
            pre,
            medium,
            dz,
            first_slab,
            u,
            head,
            size,
            worth,
        );
        assert(is_step_at(medium, dz, first_slab, trace, k));
        assert(head.last() == trace[k]);
        lemma_edge_books_the_step(
            trace[k].0,
            medium,
            (first_slab + k) as usize,
            dz,
            trace[k].1,
            trace[k + 1].0,
            trace[k + 1].1,
            size,
            worth,
        );
    }
}

} // verus!

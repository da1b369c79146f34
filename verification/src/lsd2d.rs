//! A laser-supported detonation under a beam of finite diameter: gas dynamics
//! in radius and axis, one pencil of the beam per ring, and the deposition that
//! couples them.
//!
//! The pencils are independent: each ring's beam starts from its own share of
//! the incident intensity and is marched through that ring alone, with the same
//! arithmetic as a one-dimensional column. What is new is the arithmetic of a
//! [`Beam2d`].
use crate::conservation::{
    held, holding, in_volume, is_exact, is_read, law_step_conserves, law_total_is_what_is_held,
    stored_in, walls_hold_gas, Measure,
};
use crate::euler1d::{tally, Primitive, Scheme1d, N_GHOST};
use crate::euler2d::{
    all_cells, are_mapped, energies, heated, is_build, is_heating_outcome, is_integral,
    is_stable_dt, is_step_outcome, is_warmed, is_weighted_sum, lemma_heating_widens, rates_of,
    Boundary2d, Conserved2d, Domain2d, Euler2d, Euler2dError, Geometry, Primitive2d, Scheme2d,
};
use crate::lsd::{
    absorbs_the_loss, absorption_front, find_front, is_absorbed, is_absorption, is_absorption_front,
    is_additive, is_coefficient, is_front_in, is_march, is_max_from_zero, is_peak, is_sum,
    law_absorption_is_the_loss, lemma_sum_measures, max_of, none_strong, only_dims, sum_of,
    Absorption, Beam1d, LsdError, MAX_STEP_PASSES,
};
use crate::plane::Plane;
use crate::riemann::Acoustics;
use vstd::prelude::*;

verus! {

/// Radial shape of the incident beam.
#[derive(Debug, Clone, Copy, PartialEq)]
pub enum BeamProfile<R> {
    /// Uniform out to the radius, nothing beyond.
    TopHat { radius: R },
    /// Soft-edged, of the given order; order one is an ordinary Gaussian.
    SuperGaussian { radius: R, order: u32 },
}

/// Where and how hard to light the spark.
#[derive(Debug, Clone, Copy, PartialEq)]
pub struct SeededIgnition2d<R> {
    pub centre_x: R,
    pub width_x: R,
    pub radius: R,
    pub pressure: R,
}

/// Why a column could not be built, advanced or trusted.
#[derive(Debug, PartialEq)]
pub enum Lsd2dError<R> {
    BadIncident,
    BadDomain,
    /// The seed is not a hot spot.
    BadSeed,
    Hydro(Euler2dError),
    Absorption(LsdError<R>),
    NoStableStep,
    /// No front to track.
    NoFront,
    FrontVanished,
    /// Nothing absorbs, so there is no front to describe.
    NothingAbsorbs,
    /// The absorption length spans too few cells.
    Unresolved { cells: R },
    /// The absorption length spans too much of the domain: the given share of it.
    Volumetric { share: R },
    /// The beam radius spans too few cells.
    BeamUnresolved,
    /// The wall is too close to the beam.
    DomainTooNarrow,
    /// The front is within reach of the laser-side boundary.
    FrontAtBoundary,
    /// Too little of the beam reaches the front on the axis: the given fraction.
    Extinguished { fraction: R },
    /// The pressure rise is not that of a strong detonation: the given ratio to
    /// ambient.
    WeakFront { ratio: R },
    StepsExhausted,
}

/// The arithmetic of the coupling that a pencil of the beam does not have.
pub trait Beam2d: Scheme2d {
    /// The arithmetic of one pencil.
    type Line: Beam1d<Real = Self::Real>;

    /// The one-dimensional state that an absorption model sees.
    fn as_1d(&self, w: Primitive2d<Self::Real>) -> Primitive<Self::Real>;

    /// Whether the domain's two extents are positive and finite.
    fn domain_is_valid(&self) -> bool;

    /// Whether a seed is of some size and hotter than ambient.
    fn is_hot_spot(&self, seed: SeededIgnition2d<Self::Real>, ambient: Primitive2d<Self::Real>) -> bool;

    /// Whether an axial position is within half a seed's width of its centre.
    fn is_beside_seed(&self, seed: SeededIgnition2d<Self::Real>, x: Self::Real) -> bool;

    /// Whether `r` is at most `radius`.
    fn is_within(&self, r: Self::Real, radius: Self::Real) -> bool;

    /// Soft-edged fraction at `r`.
    fn decay(&self, r: Self::Real, radius: Self::Real, order: u32) -> Self::Real;

    /// Rate at which signals cross a cell after a source `q` has acted for half
    /// of `dt`.
    fn predicted_rate(&self, w: Primitive2d<Self::Real>, q: Self::Real, dt: Self::Real) -> Self::Real;

    /// The ring that a radius falls into.
    fn ring_of(&self, radius: Self::Real) -> usize;

    /// Whether a state has left the ambient one.
    fn is_disturbed(&self, w: Primitive2d<Self::Real>, ambient: Primitive2d<Self::Real>) -> bool;

    /// Whether a beam radius spans enough rings.
    fn beam_is_resolved(&self, radius: Self::Real) -> bool;

    /// Whether `n_r` rings are wide against a beam radius.
    fn domain_is_wide(&self, n_r: usize, radius: Self::Real) -> bool;

    /// Whether a position is within reach of the laser-side boundary.
    fn is_near_laser(&self, x: Self::Real) -> bool;

    /// Whether any energy has been deposited.
    fn has_deposited(&self, deposited: Self::Real) -> bool;

    /// Relative gap between the energy gained or escaped and the energy
    /// deposited.
    fn budget_gap(
        &self,
        energy: Self::Real,
        escaped: Self::Real,
        initial: Self::Real,
        deposited: Self::Real,
    ) -> Self::Real;
}

/// `w` is the fraction of the peak intensity at radius `r`.
pub open spec fn is_weight<K: Beam2d>(
    k: K,
    beam: BeamProfile<K::Real>,
    r: K::Real,
    w: K::Real,
) -> bool {
    match beam {
        BeamProfile::TopHat { radius } => {
            ||| call_ensures(K::is_within, (&k, r, radius), true) && call_ensures(K::one, (&k,), w)
            ||| call_ensures(K::is_within, (&k, r, radius), false) && call_ensures(
                K::zero,
                (&k,),
                w,
            )
        },
        BeamProfile::SuperGaussian { radius, order } => {
            call_ensures(K::decay, (&k, r, radius, order), w)
        },
    }
}

impl<R: Copy> BeamProfile<R> {
    pub open spec fn spec_radius(self) -> R {
        match self {
            BeamProfile::TopHat { radius } => radius,
            BeamProfile::SuperGaussian { radius, order } => radius,
        }
    }

    /// Nominal beam radius.
    pub fn radius(&self) -> (r: R)
        ensures
            r == self.spec_radius(),
    {
        match *self {
            BeamProfile::TopHat { radius } => radius,
            BeamProfile::SuperGaussian { radius, order: _ } => radius,
        }
    }

    /// Fraction of the peak incident intensity at radius `r`.
    pub fn weight<K: Beam2d<Real = R>>(&self, k: &K, r: R) -> (w: R)
        ensures
            is_weight(*k, *self, r, w),
    {
        match *self {
            BeamProfile::TopHat { radius } => {
                if k.is_within(r, radius) {
                    k.one()
                } else {
                    k.zero()
                }
            },
            BeamProfile::SuperGaussian { radius, order } => k.decay(r, radius, order),
        }
    }
}

/// What a column is, mathematically.
pub struct Column2d<K: Beam2d> {
    pub hydro: Domain2d<K>,
    pub line: K::Line,
    pub absorption: Absorption<K::Real>,
    pub incident: K::Real,
    pub beam: BeamProfile<K::Real>,
    pub ambient: Primitive2d<K::Real>,
    /// The ambient state as a pencil sees it.
    pub ambient_line: Primitive<K::Real>,
    pub deposited: K::Real,
    pub initial_energy: K::Real,
}

/// `l` is what a pencil sees of ring `j`, axial cell `i`.
pub open spec fn is_cell_line<K: Beam2d>(
    c: Column2d<K>,
    j: int,
    i: int,
    l: Primitive<K::Real>,
) -> bool {
    exists|w: Primitive2d<K::Real>|
        #[trigger] call_ensures(K::to_primitive, (&c.hydro.scheme, c.hydro.cells[j][i]), w)
            && call_ensures(K::as_1d, (&c.hydro.scheme, w), l)
}

/// `a` is the absorption coefficient of a cell.
pub open spec fn is_cell_alpha<K: Beam2d>(c: Column2d<K>, j: int, i: int, a: K::Real) -> bool {
    exists|l: Primitive<K::Real>| #[trigger]
        is_cell_line(c, j, i, l) && is_coefficient(c.line, c.absorption, l, a)
}

/// The absorption model refuses a cell.
pub open spec fn is_cell_refusal<K: Beam2d>(
    c: Column2d<K>,
    j: int,
    i: int,
    e: LsdError<K::Real>,
) -> bool {
    exists|l: Primitive<K::Real>| #[trigger]
        is_cell_line(c, j, i, l) && is_absorption(c.line, c.absorption, l, Err(e))
}

/// The absorption model accepts a cell.
pub open spec fn has_alpha<K: Beam2d>(c: Column2d<K>, j: int, i: int) -> bool {
    exists|a: K::Real| #[trigger] is_cell_alpha(c, j, i, a)
}

/// Cell `i` is the first of ring `j` that the absorption model refuses.
pub open spec fn is_ring_refusal<K: Beam2d>(
    c: Column2d<K>,
    j: int,
    i: int,
    e: LsdError<K::Real>,
) -> bool {
    &&& 0 <= i < c.hydro.n_x
    &&& is_cell_refusal(c, j, i, e)
    &&& forall|k: int| 0 <= k < i ==> #[trigger] has_alpha(c, j, k)
}

/// The absorption model refuses the column, the first cell in row-major order
/// that it refuses naming the error.
pub open spec fn is_alpha_refusal<K: Beam2d>(
    c: Column2d<K>,
    e: LsdError<K::Real>,
) -> bool {
    exists|j: int, i: int|
        {
            &&& 0 <= j < c.hydro.cells.len()
            &&& #[trigger] is_ring_refusal(c, j, i, e)
            &&& forall|l: int, k: int|
                0 <= l < j && 0 <= k < c.hydro.n_x ==> #[trigger] has_alpha(c, l, k)
        }
}

/// `alpha` is the absorption of a ring's cells.
pub open spec fn is_ring_alpha<K: Beam2d>(c: Column2d<K>, j: int, alpha: Seq<K::Real>) -> bool {
    &&& alpha.len() == c.hydro.n_x
    &&& forall|i: int| 0 <= i < alpha.len() ==> is_cell_alpha(c, j, i, #[trigger] alpha[i])
}

/// `alpha` is the absorption of every cell.
pub open spec fn are_alphas<K: Beam2d>(c: Column2d<K>, alpha: Seq<Seq<K::Real>>) -> bool {
    &&& alpha.len() == c.hydro.cells.len()
    &&& forall|j: int| 0 <= j < alpha.len() ==> is_ring_alpha(c, j, #[trigger] alpha[j])
}

/// `s` is the intensity with which ring `j`'s pencil enters.
pub open spec fn is_start<K: Beam2d>(c: Column2d<K>, j: int, s: K::Real) -> bool {
    exists|r: K::Real, w: K::Real|
        {
            &&& #[trigger] call_ensures(K::r_centre, (&c.hydro.scheme, j as usize), r)
            &&& #[trigger] is_weight(c.hydro.scheme, c.beam, r, w)
            &&& call_ensures(K::times, (&c.hydro.scheme, c.incident, w), s)
        }
}

/// `profile` is the intensity at the faces of ring `j`.
pub open spec fn is_pencil<K: Beam2d>(
    c: Column2d<K>,
    j: int,
    alpha: Seq<K::Real>,
    profile: Seq<K::Real>,
) -> bool {
    exists|s: K::Real| #[trigger] is_start(c, j, s) && is_march(c.line, s, alpha, profile)
}

/// `q` is what ring `j` absorbs of its pencil.
pub open spec fn is_ring_deposit<K: Beam2d>(
    c: Column2d<K>,
    j: int,
    alpha: Seq<K::Real>,
    q: Seq<K::Real>,
) -> bool {
    exists|profile: Seq<K::Real>| #[trigger]
        is_pencil(c, j, alpha, profile) && is_absorbed(c.line, profile, q)
}

/// `p` is the intensity at the upstream faces of ring `j`.
pub open spec fn is_ring_intensity<K: Beam2d>(
    c: Column2d<K>,
    j: int,
    alpha: Seq<K::Real>,
    p: Seq<K::Real>,
) -> bool {
    exists|profile: Seq<K::Real>| #[trigger]
        is_pencil(c, j, alpha, profile) && p == profile.drop_last()
}

/// `q` is what every ring absorbs of its pencil.
pub open spec fn are_deposits<K: Beam2d>(
    c: Column2d<K>,
    alpha: Seq<Seq<K::Real>>,
    q: Seq<Seq<K::Real>>,
) -> bool {
    &&& q.len() == alpha.len()
    &&& forall|j: int| 0 <= j < q.len() ==> is_ring_deposit(c, j, alpha[j], #[trigger] q[j])
}

/// `p` is the intensity at every cell's upstream face.
pub open spec fn are_intensities<K: Beam2d>(
    c: Column2d<K>,
    alpha: Seq<Seq<K::Real>>,
    p: Seq<Seq<K::Real>>,
) -> bool {
    &&& p.len() == alpha.len()
    &&& forall|j: int| 0 <= j < p.len() ==> is_ring_intensity(c, j, alpha[j], #[trigger] p[j])
}

/// `q` is the deposition of a column.
pub open spec fn is_deposited<K: Beam2d>(c: Column2d<K>, q: Seq<Seq<K::Real>>) -> bool {
    exists|alpha: Seq<Seq<K::Real>>| #[trigger] are_alphas(c, alpha) && are_deposits(c, alpha, q)
}

/// An array over the domain's cells.
pub open spec fn is_over<K: Beam2d, T>(c: Column2d<K>, p: Plane<T>) -> bool {
    &&& p.wf()
    &&& p@.len() == c.hydro.cells.len()
    &&& p.spec_width() == c.hydro.n_x
}

/// A laser-supported detonation under a beam of finite diameter.
pub struct Lsd2dColumn<K: Beam2d> {
    hydro: Euler2d<K>,
    line: K::Line,
    absorption: Absorption<K::Real>,
    incident: K::Real,
    beam: BeamProfile<K::Real>,
    ambient: Primitive2d<K::Real>,
    ambient_line: Primitive<K::Real>,
    deposited: K::Real,
    initial_energy: K::Real,
}

impl<K: Beam2d> View for Lsd2dColumn<K> {
    type V = Column2d<K>;

    closed spec fn view(&self) -> Column2d<K> {
        Column2d {
            hydro: self.hydro@,
            line: self.line,
            absorption: self.absorption,
            incident: self.incident,
            beam: self.beam,
            ambient: self.ambient,
            ambient_line: self.ambient_line,
            deposited: self.deposited,
            initial_energy: self.initial_energy,
        }
    }
}

impl<K: Beam2d> Lsd2dColumn<K> {
    pub closed spec fn stored(&self) -> bool {
        self.hydro.stored()
    }

    /// The storage is sound and the domain valid.
    pub open spec fn wf(&self) -> bool {
        self.stored() && self@.hydro.valid()
    }

    /// What a pencil sees of a ring's cell.
    fn cell_line(&self, j: usize, i: usize) -> (l: Primitive<K::Real>)
        requires
            self.wf(),
            j < self@.hydro.cells.len(),
            i < self@.hydro.n_x,
        ensures
            is_cell_line(self@, j as int, i as int, l),
    {
        let k: &K = self.hydro.scheme();
        let w: Primitive2d<K::Real> = k.to_primitive(self.hydro.cell(j, i));
        k.as_1d(w)
    }

    /// Absorption of a ring's cells.
    fn ring_alpha(&self, j: usize) -> (r: Result<
        Vec<K::Real>,
        LsdError<K::Real>,
    >)
        requires
            self.wf(),
            j < self@.hydro.cells.len(),
        ensures
            match r {
                Ok(alpha) => is_ring_alpha(self@, j as int, alpha@),
                Err(e) => exists|i: int| #[trigger] is_ring_refusal(self@, j as int, i, e),
            },
    {
        let n: usize = self.hydro.n_x();
        let mut alpha: Vec<K::Real> = Vec::with_capacity(n);
        for i in 0..n
            invariant
                self.wf(),
                j < self@.hydro.cells.len(),
                n == self@.hydro.n_x,
                alpha@.len() == i,
                forall|k: int| 0 <= k < i ==> is_cell_alpha(self@, j as int, k, #[trigger] alpha@[k]),
        {
            let l: Primitive<K::Real> = self.cell_line(j, i);
            match self.absorption.coefficient(&self.line, l) {
                Ok(a) => {
                    proof {
                        assert(is_cell_line(self@, j as int, i as int, l));
                        assert(is_cell_alpha(self@, j as int, i as int, a));
                    }
                    alpha.push(a);
                },
                Err(e) => {
                    proof {
                        assert(is_cell_line(self@, j as int, i as int, l));
                        assert(is_cell_refusal(self@, j as int, i as int, e));
                        assert forall|k: int| 0 <= k < i implies #[trigger] has_alpha(
                            self@,
                            j as int,
                            k,
                        ) by {
                            assert(is_cell_alpha(self@, j as int, k, alpha@[k]));
                        }
                        assert(is_ring_refusal(self@, j as int, i as int, e));
                    }
                    return Err(e);
                },
            }
        }
        Ok(alpha)
    }

    /// Absorption coefficient per cell.
    pub fn alpha_profile(&self) -> (r: Result<
        Plane<K::Real>,
        Lsd2dError<K::Real>,
    >)
        requires
            self.wf(),
        ensures
            match r {
                Ok(alpha) => is_over(self@, alpha) && are_alphas(self@, alpha@),
                Err(Lsd2dError::Absorption(e)) => is_alpha_refusal(self@, e),
                Err(_) => false,
            },
    {
        let (n_r, n_x): (usize, usize) = (self.hydro.n_r(), self.hydro.n_x());
        proof {
            self.hydro.lemma_area_fits();
        }
        let mut alpha: Plane<K::Real> = Plane::filled(n_r, n_x, self.hydro.scheme().zero());
        for j in 0..n_r
            invariant
                self.wf(),
                n_r == self@.hydro.cells.len(),
                n_x == self@.hydro.n_x,
                is_over(self@, alpha),
                forall|l: int| 0 <= l < j ==> is_ring_alpha(self@, l, #[trigger] alpha@[l]),
        {
            match self.ring_alpha(j) {
                Ok(row) => {
                    alpha.set_row(j, row.as_slice());
                },
                Err(e) => {
                    proof {
                        let i = choose|i: int| #[trigger] is_ring_refusal(self@, j as int, i, e);
                        assert forall|l: int, k: int|
                            0 <= l < j && 0 <= k < self@.hydro.n_x implies #[trigger] has_alpha(
                            self@,
                            l,
                            k,
                        ) by {
                            assert(is_ring_alpha(self@, l, alpha@[l]));
                            assert(is_cell_alpha(self@, l, k, alpha@[l][k]));
                        }
                        assert(is_alpha_refusal(self@, e));
                    }
                    return Err(Lsd2dError::Absorption(e));
                },
            }
        }
        Ok(alpha)
    }

    /// Intensity at the faces of ring `j`, marched through its absorption.
    fn pencil(&self, j: usize, alpha: &[K::Real]) -> (profile: Vec<K::Real>)
        requires
            self.wf(),
            alpha@.len() < usize::MAX,
        ensures
            is_pencil(self@, j as int, alpha@, profile@),
    {
        let k: &K = self.hydro.scheme();
        let r: K::Real = k.r_centre(j);
        let w: K::Real = self.beam.weight(k, r);
        let start: K::Real = k.times(self.incident, w);
        proof {
            assert(is_start(self@, j as int, start));
        }
        let mut profile: Vec<K::Real> = Vec::with_capacity(alpha.len() + 1);
        let mut beam: K::Real = start;
        profile.push(beam);
        for i in 0..alpha.len()
            invariant
                profile@.len() == i + 1,
                profile@[0] == start,
                profile@[i as int] == beam,
                forall|m: int|
                    #![trigger alpha@[m]]
                    0 <= m < i ==> call_ensures(
                        <K::Line as Beam1d>::attenuate,
                        (&self.line, profile@[m], alpha@[m]),
                        profile@[m + 1],
                    ),
        {
            beam = self.line.attenuate(beam, alpha[i]);
            profile.push(beam);
        }
        profile
    }

    /// Absorbed power density per cell: what each ring's pencil loses across it.
    pub fn deposition(&self) -> (r: Result<
        Plane<K::Real>,
        Lsd2dError<K::Real>,
    >)
        requires
            self.wf(),
        ensures
            match r {
                Ok(q) => is_over(self@, q) && is_deposited(self@, q@),
                Err(Lsd2dError::Absorption(e)) => is_alpha_refusal(self@, e),
                Err(_) => false,
            },
    {
        let alpha: Plane<K::Real> = match self.alpha_profile() {
            Ok(alpha) => alpha,
            Err(e) => {
                return Err(e);
            },
        };
        let (n_r, n_x): (usize, usize) = (self.hydro.n_r(), self.hydro.n_x());
        proof {
            self.hydro.lemma_area_fits();
        }
        let mut q: Plane<K::Real> = Plane::filled(n_r, n_x, self.hydro.scheme().zero());
        for j in 0..n_r
            invariant
                self.wf(),
                self@.hydro.valid(),
                n_r == self@.hydro.cells.len(),
                n_x == self@.hydro.n_x,
                is_over(self@, alpha),
                are_alphas(self@, alpha@),
                is_over(self@, q),
                forall|l: int|
                    0 <= l < j ==> is_ring_deposit(self@, l, alpha@[l], #[trigger] q@[l]),
        {
            let row: Vec<K::Real> = alpha.row(j);
            let profile: Vec<K::Real> = self.pencil(j, row.as_slice());
            let mut line: Vec<K::Real> = Vec::with_capacity(n_x);
            for i in 0..n_x
                invariant
                    profile@.len() == n_x + 1,
                    line@.len() == i,
                    forall|m: int|
                        0 <= m < i ==> call_ensures(
                            <K::Line as Beam1d>::absorbed,
                            (&self.line, profile@[m], profile@[m + 1]),
                            #[trigger] line@[m],
                        ),
            {
                let a: K::Real = self.line.absorbed(profile[i], profile[i + 1]);
                line.push(a);
            }
            proof {
                assert(is_absorbed(self@.line, profile@, line@));
                assert(is_ring_deposit(self@, j as int, alpha@[j as int], line@));
            }
            q.set_row(j, line.as_slice());
        }
        proof {
            assert(are_deposits(self@, alpha@, q@));
        }
        Ok(q)
    }

    /// Beam intensity at each cell's upstream face.
    pub fn intensity_profile(&self) -> (r: Result<
        Plane<K::Real>,
        Lsd2dError<K::Real>,
    >)
        requires
            self.wf(),
        ensures
            match r {
                Ok(p) => is_over(self@, p) && exists|alpha: Seq<Seq<K::Real>>| #[trigger]
                    are_alphas(self@, alpha) && are_intensities(self@, alpha, p@),
                Err(Lsd2dError::Absorption(e)) => is_alpha_refusal(self@, e),
                Err(_) => false,
            },
    {
        let alpha: Plane<K::Real> = match self.alpha_profile() {
            Ok(alpha) => alpha,
            Err(e) => {
                return Err(e);
            },
        };
        let (n_r, n_x): (usize, usize) = (self.hydro.n_r(), self.hydro.n_x());
        proof {
            self.hydro.lemma_area_fits();
        }
        let mut p: Plane<K::Real> = Plane::filled(n_r, n_x, self.hydro.scheme().zero());
        for j in 0..n_r
            invariant
                self.wf(),
                self@.hydro.valid(),
                n_r == self@.hydro.cells.len(),
                n_x == self@.hydro.n_x,
                is_over(self@, alpha),
                are_alphas(self@, alpha@),
                is_over(self@, p),
                forall|l: int|
                    0 <= l < j ==> is_ring_intensity(self@, l, alpha@[l], #[trigger] p@[l]),
        {
            let row: Vec<K::Real> = alpha.row(j);
            let mut profile: Vec<K::Real> = self.pencil(j, row.as_slice());
            let ghost whole = profile@;
            let last: Option<K::Real> = profile.pop();
            proof {
                assert(is_pencil(self@, j as int, alpha@[j as int], whole));
                assert(is_ring_intensity(self@, j as int, alpha@[j as int], profile@));
            }
            p.set_row(j, profile.as_slice());
        }
        proof {
            assert(are_intensities(self@, alpha@, p@));
        }
        Ok(p)
    }
}

/// The rates listed ring by ring.
pub open spec fn listed<R>(q: Seq<Seq<R>>) -> spec_fn(int, int, R, R, R) -> bool {
    |j: int, i: int, r: R, x: R, rate: R| rate == q[j][i]
}

/// `after` is `before` plus the power deposited in one ring, in the measure in
/// which the gas dynamics integrates.
pub open spec fn is_ring_power<K: Beam2d>(
    c: Column2d<K>,
    j: int,
    q: Seq<K::Real>,
    before: K::Real,
    after: K::Real,
) -> bool {
    exists|sum: K::Real, dx: K::Real, volume: K::Real|
        {
            &&& #[trigger] is_sum(c.line, q, sum)
            &&& #[trigger] call_ensures(K::dx, (&c.hydro.scheme,), dx)
            &&& #[trigger] call_ensures(
                K::times,
                (&c.hydro.scheme, c.hydro.volumes[N_GHOST + j], dx),
                volume,
            )
            &&& is_weighted_sum(c.hydro.scheme, before, sum, volume, after)
        }
}

/// `run[j]` is the power deposited in the first `j` rings.
pub open spec fn is_power_run<K: Beam2d>(
    c: Column2d<K>,
    q: Seq<Seq<K::Real>>,
    n: int,
    run: Seq<K::Real>,
) -> bool {
    &&& run.len() == n + 1
    &&& call_ensures(K::zero, (&c.hydro.scheme,), run[0])
    &&& forall|j: int|
        #![trigger q[j]]
        0 <= j < n ==> is_ring_power(c, j, q[j], run[j], run[j + 1])
}

/// `rate` is the power deposited in the whole domain.
pub open spec fn is_power<K: Beam2d>(c: Column2d<K>, q: Seq<Seq<K::Real>>, rate: K::Real) -> bool {
    exists|run: Seq<K::Real>| #[trigger]
        is_power_run(c, q, q.len() as int, run) && run.last() == rate
}

/// What a deposition of `q` for `dt` may do once `q` is known.
pub open spec fn is_banking<K: Beam2d>(
    pre: Column2d<K>,
    dt: K::Real,
    q: Seq<Seq<K::Real>>,
    post: Column2d<K>,
    r: Result<(), Lsd2dError<K::Real>>,
) -> bool {
    match r {
        Ok(_) => {
            &&& is_heating_outcome(pre.hydro, dt, listed(q), post.hydro, Ok(()))
            &&& is_banked(pre, dt, q, post.deposited)
            &&& post == (Column2d { hydro: post.hydro, deposited: post.deposited, ..pre })
        },
        Err(Lsd2dError::Hydro(e)) => {
            &&& is_heating_outcome(pre.hydro, dt, listed(q), post.hydro, Err(e))
            &&& post == (Column2d { hydro: post.hydro, ..pre })
        },
        Err(_) => false,
    }
}

pub open spec fn is_banked<K: Beam2d>(
    pre: Column2d<K>,
    dt: K::Real,
    q: Seq<Seq<K::Real>>,
    deposited: K::Real,
) -> bool {
    exists|rate: K::Real| #[trigger]
        is_power(pre, q, rate) && is_weighted_sum(
            pre.hydro.scheme,
            pre.deposited,
            dt,
            rate,
            deposited,
        )
}

/// What a source half-step of length `dt` may do.
pub open spec fn is_deposit<K: Beam2d>(
    pre: Column2d<K>,
    dt: K::Real,
    post: Column2d<K>,
    r: Result<(), Lsd2dError<K::Real>>,
) -> bool {
    ||| (r matches Err(Lsd2dError::Absorption(e)) && is_alpha_refusal(pre, e)) && post == pre
    ||| exists|q: Seq<Seq<K::Real>>| #[trigger]
        is_deposited(pre, q) && is_banking(pre, dt, q, post, r)
}

/// The stages of a coupled step, in order: half a deposition to `a`, the hydro
/// step to `b`, half a deposition. The first that refuses ends the step.
pub open spec fn is_advance_staged<K: Beam2d>(
    pre: Column2d<K>,
    dt: K::Real,
    half: K::Real,
    a: Column2d<K>,
    b: Column2d<K>,
    post: Column2d<K>,
    r: Result<(), Lsd2dError<K::Real>>,
) -> bool {
    let first = is_deposit(pre, half, a, Ok(()));
    let second = first && is_step_outcome(a.hydro, dt, true, true, b.hydro, Ok(())) && b == (
    Column2d { hydro: b.hydro, ..a });
    &&& call_ensures(K::half, (&pre.hydro.scheme, dt), half)
    &&& match r {
        Ok(_) => second && is_deposit(b, half, post, Ok(())),
        Err(e) => {
            ||| is_deposit(pre, half, post, Err(e))
            ||| first && (e matches Lsd2dError::Hydro(h) && is_step_outcome(
                a.hydro,
                dt,
                true,
                true,
                post.hydro,
                Err(h),
            )) && post == (Column2d { hydro: post.hydro, ..a })
            ||| second && is_deposit(b, half, post, Err(e))
        },
    }
}

/// What a coupled step may do.
pub open spec fn is_advance<K: Beam2d>(
    pre: Column2d<K>,
    dt: K::Real,
    post: Column2d<K>,
    r: Result<(), Lsd2dError<K::Real>>,
) -> bool {
    exists|half: K::Real, a: Column2d<K>, b: Column2d<K>| #[trigger]
        is_advance_staged(pre, dt, half, a, b, post, r)
}

/// `rates[k]` is the predicted crossing rate of the cell stored at `k`.
pub open spec fn are_predicted<K: Beam2d>(
    k: K,
    states: Seq<Primitive2d<K::Real>>,
    q: Seq<K::Real>,
    dt: K::Real,
    rates: Seq<K::Real>,
) -> bool {
    &&& rates.len() == states.len()
    &&& forall|i: int|
        0 <= i < rates.len() ==> call_ensures(
            K::predicted_rate,
            (&k, states[i], q[i], dt),
            #[trigger] rates[i],
        )
}

/// `next` is the step that the predicted rates of `dt` allow.
pub open spec fn is_next_step<K: Beam2d>(
    c: Column2d<K>,
    states: Seq<Primitive2d<K::Real>>,
    q: Seq<K::Real>,
    dt: K::Real,
    next: K::Real,
) -> bool {
    exists|rates: Seq<K::Real>, top: K::Real|
        {
            &&& #[trigger] are_predicted(c.hydro.scheme, states, q, dt, rates)
            &&& #[trigger] is_max_from_zero(c.line, rates, top)
            &&& call_ensures(K::courant_step, (&c.hydro.scheme, c.hydro.cfl, top), next)
        }
}

/// Pass `i` of the iteration takes `trace[i]` to `trace[i + 1]`.
pub open spec fn is_pass<K: Beam2d>(
    c: Column2d<K>,
    states: Seq<Primitive2d<K::Real>>,
    q: Seq<K::Real>,
    trace: Seq<K::Real>,
    i: int,
) -> bool {
    is_next_step(c, states, q, trace[i], trace[i + 1])
}

/// Whether pass `i` was found to have settled.
pub open spec fn is_settled_at<K: Beam2d>(
    c: Column2d<K>,
    trace: Seq<K::Real>,
    i: int,
    settled: bool,
) -> bool {
    call_ensures(<K::Line as Beam1d>::is_settled, (&c.line, trace[i + 1], trace[i]), settled)
}

/// `trace` is the iteration on the coupled step: it ends with the pass that
/// settles, or after [`MAX_STEP_PASSES`].
pub open spec fn is_step_iteration<K: Beam2d>(
    c: Column2d<K>,
    states: Seq<Primitive2d<K::Real>>,
    q: Seq<K::Real>,
    trace: Seq<K::Real>,
) -> bool {
    let passes = trace.len() - 1;
    &&& 0 <= passes <= MAX_STEP_PASSES
    &&& forall|i: int| 0 <= i < passes ==> #[trigger] is_pass(c, states, q, trace, i)
    &&& forall|i: int| 0 <= i < passes - 1 ==> #[trigger] is_settled_at(c, trace, i, false)
}

pub open spec fn is_iteration_over<K: Beam2d>(c: Column2d<K>, trace: Seq<K::Real>) -> bool {
    let passes = trace.len() - 1;
    ||| passes == MAX_STEP_PASSES
    ||| passes > 0 && is_settled_at(c, trace, passes - 1, true)
}

/// `states` are the primitive states of the cells in row-major order.
pub open spec fn are_states<K: Beam2d>(c: Column2d<K>, states: Seq<Primitive2d<K::Real>>) -> bool {
    &&& states.len() == all_cells(c.hydro.cells).len()
    &&& forall|k: int|
        0 <= k < states.len() ==> call_ensures(
            K::to_primitive,
            (&c.hydro.scheme, all_cells(c.hydro.cells)[k]),
            #[trigger] states[k],
        )
}

/// What asking for the coupled step may return, once the deposition is known.
pub open spec fn is_coupled_step<K: Beam2d>(
    c: Column2d<K>,
    q: Seq<K::Real>,
    states: Seq<Primitive2d<K::Real>>,
    trace: Seq<K::Real>,
    r: Result<K::Real, Lsd2dError<K::Real>>,
) -> bool {
    let k = c.hydro.scheme;
    &&& are_states(c, states)
    &&& is_stable_dt(c.hydro, Ok(trace[0]))
    &&& is_step_iteration(c, states, q, trace)
    &&& is_iteration_over(c, trace)
    &&& match r {
        Ok(dt) => {
            &&& call_ensures(K::is_positive, (&k, trace.last()), true)
            &&& call_ensures(<K::Line as Beam1d>::shave, (&c.line, trace.last()), dt)
        },
        Err(e) => {
            &&& call_ensures(K::is_positive, (&k, trace.last()), false)
            &&& e is NoStableStep
        },
    }
}

/// What [`Lsd2dColumn::stable_dt`] may return.
pub open spec fn is_coupled_dt<K: Beam2d>(
    c: Column2d<K>,
    r: Result<K::Real, Lsd2dError<K::Real>>,
) -> bool {
    ||| r matches Err(Lsd2dError::Absorption(e)) && is_alpha_refusal(c, e)
    ||| exists|q: Plane<K::Real>|
        {
            &&& #[trigger] is_over(c, q)
            &&& is_deposited(c, q@)
            &&& is_coupled_dt_under(c, q.stored(), r)
        }
}

pub open spec fn is_coupled_dt_under<K: Beam2d>(
    c: Column2d<K>,
    q: Seq<K::Real>,
    r: Result<K::Real, Lsd2dError<K::Real>>,
) -> bool {
    ||| r matches Err(Lsd2dError::Hydro(e)) && is_stable_dt(c.hydro, Err(e))
    ||| exists|states: Seq<Primitive2d<K::Real>>, trace: Seq<K::Real>| #[trigger]
        is_coupled_step(c, q, states, trace, r)
}

/// The boundaries of a column: the axis inside, open everywhere else.
pub open spec fn is_open_column(boundaries: [Boundary2d; 4]) -> bool {
    &&& boundaries[0] == Boundary2d::Axis
    &&& boundaries[1] == Boundary2d::Transmissive
    &&& boundaries[2] == Boundary2d::Transmissive
    &&& boundaries[3] == Boundary2d::Transmissive
}

/// A position is inside a seed, both along the axis and across it.
pub open spec fn is_inside_seed<K: Beam2d>(
    scheme: K,
    seed: SeededIgnition2d<K::Real>,
    r: K::Real,
    x: K::Real,
    inside: bool,
) -> bool {
    ||| call_ensures(K::is_beside_seed, (&scheme, seed, x), false) && !inside
    ||| call_ensures(K::is_beside_seed, (&scheme, seed, x), true) && call_ensures(
        K::is_within,
        (&scheme, r, seed.radius),
        inside,
    )
}

/// `w` is the initial state of ring `j`, axial cell `i`: at the seed's pressure
/// inside the seed, ambient elsewhere.
pub open spec fn is_seeded_state<K: Beam2d>(
    scheme: K,
    ignition: SeededIgnition2d<K::Real>,
    ambient: Primitive2d<K::Real>,
    j: int,
    i: int,
    w: Primitive2d<K::Real>,
) -> bool {
    exists|r: K::Real, x: K::Real|
        {
            &&& #[trigger] call_ensures(K::r_centre, (&scheme, j as usize), r)
            &&& #[trigger] call_ensures(K::x_centre, (&scheme, i as usize), x)
            &&& {
                ||| is_inside_seed(scheme, ignition, r, x, true) && w == (Primitive2d {
                    p: ignition.pressure,
                    ..ambient
                })
                ||| is_inside_seed(scheme, ignition, r, x, false) && w == ambient
            }
        }
}

/// What building a seeded column may return.
pub open spec fn is_seeded<K: Beam2d>(
    scheme: K,
    line: K::Line,
    geometry: Geometry,
    n_r: usize,
    n_x: usize,
    ambient: Primitive2d<K::Real>,
    ignition: SeededIgnition2d<K::Real>,
    absorption: Absorption<K::Real>,
    incident: K::Real,
    beam: BeamProfile<K::Real>,
    boundaries: [Boundary2d; 4],
    states: Seq<Primitive2d<K::Real>>,
    built: Result<Euler2d<K>, Euler2dError>,
    r: Result<Lsd2dColumn<K>, Lsd2dError<K::Real>>,
) -> bool {
    let lit = call_ensures(K::is_positive, (&scheme, incident), true);
    let sized = lit && call_ensures(K::domain_is_valid, (&scheme,), true);
    let hot = sized && call_ensures(K::is_hot_spot, (&scheme, ignition, ambient), true);
    let filled = hot && is_open_column(boundaries) && is_build(
        scheme,
        geometry,
        boundaries,
        n_r,
        n_x,
        states,
        built,
    ) && states.len() == n_r * n_x && forall|k: int|
        0 <= k < states.len() ==> is_seeded_state(
            scheme,
            ignition,
            ambient,
            k / n_x as int,
            k % n_x as int,
            #[trigger] states[k],
        );
    match r {
        Ok(c) => {
            &&& filled
            &&& c.wf()
            &&& built matches Ok(h) && c@.hydro == h@
            &&& c@.line == line
            &&& c@.absorption == absorption
            &&& c@.incident == incident
            &&& c@.beam == beam
            &&& c@.ambient == ambient
            &&& call_ensures(K::as_1d, (&scheme, ambient), c@.ambient_line)
            &&& call_ensures(K::zero, (&scheme,), c@.deposited)
            &&& is_integral(c@.hydro, energies(), c@.initial_energy)
        },
        Err(Lsd2dError::BadIncident) => call_ensures(K::is_positive, (&scheme, incident), false),
        Err(Lsd2dError::BadDomain) => lit && call_ensures(K::domain_is_valid, (&scheme,), false),
        Err(Lsd2dError::BadSeed) => {
            sized && call_ensures(K::is_hot_spot, (&scheme, ignition, ambient), false)
        },
        Err(Lsd2dError::Hydro(e)) => filled && (built matches Err(f) && f == e),
        Err(_) => false,
    }
}

impl<K: Beam2d> Lsd2dColumn<K> {
    /// A column of `n_r` by `n_x` cells filled with ambient gas and a seeded hot
    /// spot, driven by a beam that enters at the lower axial end.
    pub fn seeded(
        scheme: K,
        line: K::Line,
        n_r: usize,
        n_x: usize,
        ambient: Primitive2d<K::Real>,
        ignition: SeededIgnition2d<K::Real>,
        absorption: Absorption<K::Real>,
        incident: K::Real,
        beam: BeamProfile<K::Real>,
    ) -> (r: Result<Self, Lsd2dError<K::Real>>)
        requires
            n_r + 2 * N_GHOST + 1 <= isize::MAX,
            n_x + 2 * N_GHOST + 1 <= isize::MAX,
            n_r * n_x <= usize::MAX,
        ensures
            exists|
                boundaries: [Boundary2d; 4],
                states: Seq<Primitive2d<K::Real>>,
                built: Result<Euler2d<K>, Euler2dError>,
            | #[trigger]
                is_seeded(
                    scheme,
                    line,
                    Geometry::Axisymmetric,
                    n_r,
                    n_x,
                    ambient,
                    ignition,
                    absorption,
                    incident,
                    beam,
                    boundaries,
                    states,
                    built,
                    r,
                ),
    {
        Self::seeded_with_geometry(
            scheme,
            line,
            Geometry::Axisymmetric,
            n_r,
            n_x,
            ambient,
            ignition,
            absorption,
            incident,
            beam,
        )
    }

    /// [`Lsd2dColumn::seeded`] with the geometry chosen: the planar one is a
    /// control, the same coupling without the geometric source.
    pub fn seeded_with_geometry(
        scheme: K,
        line: K::Line,
        geometry: Geometry,
        n_r: usize,
        n_x: usize,
        ambient: Primitive2d<K::Real>,
        ignition: SeededIgnition2d<K::Real>,
        absorption: Absorption<K::Real>,
        incident: K::Real,
        beam: BeamProfile<K::Real>,
    ) -> (r: Result<Self, Lsd2dError<K::Real>>)
        requires
            n_r + 2 * N_GHOST + 1 <= isize::MAX,
            n_x + 2 * N_GHOST + 1 <= isize::MAX,
            n_r * n_x <= usize::MAX,
        ensures
            exists|
                boundaries: [Boundary2d; 4],
                states: Seq<Primitive2d<K::Real>>,
                built: Result<Euler2d<K>, Euler2dError>,
            | #[trigger]
                is_seeded(
                    scheme,
                    line,
                    geometry,
                    n_r,
                    n_x,
                    ambient,
                    ignition,
                    absorption,
                    incident,
                    beam,
                    boundaries,
                    states,
                    built,
                    r,
                ),
    {
        let boundaries: [Boundary2d; 4] = [
            Boundary2d::Axis,
            Boundary2d::Transmissive,
            Boundary2d::Transmissive,
            Boundary2d::Transmissive,
        ];
        let ghost unbuilt: Result<Euler2d<K>, Euler2dError> = Err(Euler2dError::BadSpacing);
        let ghost empty: Seq<Primitive2d<K::Real>> = Seq::empty();
        let ghost outcome = |
            states: Seq<Primitive2d<K::Real>>,
            built: Result<Euler2d<K>, Euler2dError>,
            r: Result<Self, Lsd2dError<K::Real>>,
        |
            is_seeded(
                scheme,
                line,
                geometry,
                n_r,
                n_x,
                ambient,
                ignition,
                absorption,
                incident,
                beam,
                boundaries,
                states,
                built,
                r,
            );
        if !scheme.is_positive(incident) {
            proof {
                assert(outcome(empty, unbuilt, Err(Lsd2dError::BadIncident)));
            }
            return Err(Lsd2dError::BadIncident);
        }
        if !scheme.domain_is_valid() {
            proof {
                assert(outcome(empty, unbuilt, Err(Lsd2dError::BadDomain)));
            }
            return Err(Lsd2dError::BadDomain);
        }
        if !scheme.is_hot_spot(ignition, ambient) {
            proof {
                assert(outcome(empty, unbuilt, Err(Lsd2dError::BadSeed)));
            }
            return Err(Lsd2dError::BadSeed);
        }
        let n: usize = n_r * n_x;
        let mut states: Vec<Primitive2d<K::Real>> = Vec::with_capacity(n);
        for k in 0..n
            invariant
                n == n_r * n_x,
                states@.len() == k,
                forall|m: int|
                    0 <= m < k ==> is_seeded_state(
                        scheme,
                        ignition,
                        ambient,
                        m / n_x as int,
                        m % n_x as int,
                        #[trigger] states@[m],
                    ),
        {
            proof {
                assert(n_x > 0) by (nonlinear_arith)
                    requires
                        n_r * n_x > 0,
                        n_x >= 0,
                ;
            }
            let j: usize = k / n_x;
            let i: usize = k % n_x;
            let r: K::Real = scheme.r_centre(j);
            let x: K::Real = scheme.x_centre(i);
            let inside: bool = scheme.is_beside_seed(ignition, x) && scheme.is_within(
                r,
                ignition.radius,
            );
            let w: Primitive2d<K::Real> = if inside {
                Primitive2d {
                    rho: ambient.rho,
                    u_r: ambient.u_r,
                    u_x: ambient.u_x,
                    p: ignition.pressure,
                }
            } else {
                ambient
            };
            proof {
                assert(is_seeded_state(
                    scheme,
                    ignition,
                    ambient,
                    k as int / n_x as int,
                    k as int % n_x as int,
                    w,
                ));
            }
            states.push(w);
        }
        let deposited: K::Real = scheme.zero();
        let ambient_line: Primitive<K::Real> = scheme.as_1d(ambient);
        let built: Result<Euler2d<K>, Euler2dError> = Euler2d::new(
            scheme,
            geometry,
            boundaries,
            n_r,
            n_x,
            states.as_slice(),
        );
        let ghost kept = built;
        match built {
            Ok(hydro) => {
                let initial_energy: K::Real = hydro.total_energy();
                let c: Self = Lsd2dColumn {
                    hydro,
                    line,
                    absorption,
                    incident,
                    beam,
                    ambient,
                    ambient_line,
                    deposited,
                    initial_energy,
                };
                proof {
                    assert(outcome(states@, kept, Ok(c)));
                }
                Ok(c)
            },
            Err(e) => {
                proof {
                    assert(outcome(states@, kept, Err(Lsd2dError::Hydro(e))));
                }
                Err(Lsd2dError::Hydro(e))
            },
        }
    }

    /// The gas dynamics.
    pub fn hydro(&self) -> (h: &Euler2d<K>)
        requires
            self.wf(),
        ensures
            h@ == self@.hydro,
            h.wf(),
    {
        &self.hydro
    }

    /// The beam's radial profile.
    pub fn beam(&self) -> (b: BeamProfile<K::Real>)
        ensures
            b == self@.beam,
    {
        self.beam
    }

    /// Peak incident intensity.
    pub fn incident_intensity(&self) -> (i: K::Real)
        ensures
            i == self@.incident,
    {
        self.incident
    }

    /// Energy that the beam has deposited so far.
    pub fn deposited_energy(&self) -> (e: K::Real)
        ensures
            e == self@.deposited,
    {
        self.deposited
    }

    /// Relative closure of the energy budget, what has escaped counted in. Zero
    /// before anything is deposited.
    pub fn energy_residual(&self) -> (gap: K::Real)
        requires
            self.wf(),
        ensures
            is_residual(self@, gap),
    {
        let k: &K = self.hydro.scheme();
        if !k.has_deposited(self.deposited) {
            return k.zero();
        }
        let energy: K::Real = self.hydro.total_energy();
        proof {
            assert(is_integral(self@.hydro, energies(), energy));
        }
        k.budget_gap(energy, self.hydro.escaped_energy(), self.initial_energy, self.deposited)
    }

    /// Deposition integrated over the domain.
    fn deposition_rate(&self, q: &Plane<K::Real>) -> (rate: K::Real)
        requires
            self.wf(),
            is_over(self@, *q),
        ensures
            is_power(self@, q@, rate),
    {
        let k: &K = self.hydro.scheme();
        let mut total: K::Real = k.zero();
        let ghost mut run: Seq<K::Real> = seq![total];
        let n_r: usize = self.hydro.n_r();
        for j in 0..n_r
            invariant
                self.wf(),
                *k == self@.hydro.scheme,
                is_over(self@, *q),
                n_r == self@.hydro.cells.len(),
                is_power_run(self@, q@, j as int, run),
                run.last() == total,
        {
            let row: Vec<K::Real> = q.row(j);
            let area: K::Real = self.hydro.ring_volume(j);
            let dx: K::Real = k.dx();
            let volume: K::Real = k.times(area, dx);
            let sum: K::Real = sum_of(&self.line, row.as_slice());
            let part: K::Real = k.times(sum, volume);
            let next: K::Real = k.plus(total, part);
            proof {
                assert(is_sum(self@.line, q@[j as int], sum));
                assert(is_weighted_sum(self@.hydro.scheme, total, sum, volume, next));
                assert(is_ring_power(self@, j as int, q@[j as int], total, next));
                let run2 = run.push(next);
                assert forall|l: int|
                    #![trigger q@[l]]
                    0 <= l < j + 1 implies is_ring_power(self@, l, q@[l], run2[l], run2[l + 1]) by {
                    if l < j {
                        assert(is_ring_power(self@, l, q@[l], run[l], run[l + 1]));
                    }
                }
                run = run2;
            }
            total = next;
        }
        total
    }

    /// One source half-step: deposit for `dt` and bank the energy.
    fn deposit(&mut self, dt: K::Real) -> (r: Result<
        (),
        Lsd2dError<K::Real>,
    >)
        requires
            old(self).wf(),
        ensures
            final(self).wf(),
            is_deposit(old(self)@, dt, final(self)@, r),
            final(self)@.hydro.steps == old(self)@.hydro.steps,
    {
        let ghost pre = self@;
        let q: Plane<K::Real> = match self.deposition() {
            Ok(q) => q,
            Err(e) => {
                return Err(e);
            },
        };
        let rate: K::Real = self.deposition_rate(&q);
        let qr: &Plane<K::Real> = &q;
        let source = |j: usize, i: usize, _r: K::Real, _x: K::Real| -> (v: K::Real)
            requires
                qr.wf(),
                j < qr@.len(),
                i < qr.spec_width(),
            ensures
                v == qr@[j as int][i as int],
            { *qr.at(j, i) };
        let heated: Result<(), Euler2dError> = self.hydro.add_energy(dt, source);
        proof {
            lemma_heating_widens(
                pre.hydro,
                dt,
                rates_of(source),
                listed(q@),
                self.hydro@,
                heated,
            );
            assert(is_deposited(pre, q@));
        }
        match heated {
            Ok(_) => {},
            Err(e) => {
                proof {
                    assert(is_banking(pre, dt, q@, self@, Err(Lsd2dError::Hydro(e))));
                }
                return Err(Lsd2dError::Hydro(e));
            },
        }
        let k: &K = self.hydro.scheme();
        let part: K::Real = k.times(dt, rate);
        self.deposited = k.plus(self.deposited, part);
        proof {
            let unit: () = heated->Ok_0;
            assert(unit == ());
            assert(is_power(pre, q@, rate));
            assert(is_weighted_sum(
                pre.hydro.scheme,
                pre.deposited,
                dt,
                rate,
                self@.deposited,
            ));
            assert(is_banked(pre, dt, q@, self@.deposited));
            assert(is_banking(pre, dt, q@, self@, Ok(())));
        }
        Ok(())
    }

    /// One coupled step of `dt`: half a deposition, a hydro step, half a
    /// deposition of what the beam then loses.
    pub fn advance(&mut self, dt: K::Real) -> (r: Result<
        (),
        Lsd2dError<K::Real>,
    >)
        requires
            old(self).wf(),
            old(self)@.hydro.steps < usize::MAX,
        ensures
            final(self).wf(),
            is_advance(old(self)@, dt, final(self)@, r),
            r is Ok ==> final(self)@.hydro.steps == old(self)@.hydro.steps + 1,
    {
        let ghost pre = self@;
        let half: K::Real = self.hydro.scheme().half(dt);
        let first: Result<(), Lsd2dError<K::Real>> = self.deposit(
            half,
        );
        match first {
            Ok(_) => {},
            Err(e) => {
                proof {
                    assert(is_advance_staged(pre, dt, half, pre, pre, self@, Err(e)));
                }
                return Err(e);
            },
        }
        let ghost a = self@;
        proof {
            let unit: () = first->Ok_0;
            assert(unit == ());
            assert(is_deposit(pre, half, a, Ok(())));
        }
        let stepped: Result<(), Euler2dError> = self.hydro.step(dt);
        match stepped {
            Ok(_) => {},
            Err(e) => {
                proof {
                    assert(is_advance_staged(
                        pre,
                        dt,
                        half,
                        a,
                        a,
                        self@,
                        Err(Lsd2dError::Hydro(e)),
                    ));
                }
                return Err(Lsd2dError::Hydro(e));
            },
        }
        let ghost b = self@;
        proof {
            let unit: () = stepped->Ok_0;
            assert(unit == ());
            assert(is_step_outcome(a.hydro, dt, true, true, b.hydro, Ok(())));
            assert(b == (Column2d { hydro: b.hydro, ..a }));
        }
        let last: Result<(), Lsd2dError<K::Real>> = self.deposit(
            half,
        );
        match last {
            Ok(unit) => {
                proof {
                    assert(unit == ());
                    assert(is_advance_staged(pre, dt, half, a, b, self@, Ok(())));
                }
                Ok(())
            },
            Err(e) => {
                proof {
                    assert(is_advance_staged(pre, dt, half, a, b, self@, Err(e)));
                }
                Err(e)
            },
        }
    }

    fn next_step(&self, states: &[Primitive2d<K::Real>], q: &[K::Real], dt: K::Real) -> (next: K::Real)
        requires
            q@.len() == states@.len(),
        ensures
            is_next_step(self@, states@, q@, dt, next),
    {
        let k: &K = self.hydro.scheme();
        let mut rates: Vec<K::Real> = Vec::with_capacity(states.len());
        for i in 0..states.len()
            invariant
                q@.len() == states@.len(),
                rates@.len() == i,
                forall|j: int|
                    0 <= j < i ==> call_ensures(
                        K::predicted_rate,
                        (k, states@[j], q@[j], dt),
                        #[trigger] rates@[j],
                    ),
        {
            let s: K::Real = k.predicted_rate(states[i], q[i], dt);
            rates.push(s);
        }
        let zero: K::Real = self.line.zero();
        let top: K::Real = max_of(&self.line, zero, rates.as_slice());
        proof {
            assert(are_predicted(*k, states@, q@, dt, rates@));
            assert(is_max_from_zero(self@.line, rates@, top));
        }
        k.courant_step(self.hydro.cfl(), top)
    }

    /// Stable step of the coupled system, found by iteration as in one
    /// dimension, [`MAX_STEP_PASSES`] passes at most.
    pub fn stable_dt(&self) -> (r: Result<
        K::Real,
        Lsd2dError<K::Real>,
    >)
        requires
            self.wf(),
        ensures
            is_coupled_dt(self@, r),
    {
        let q: Plane<K::Real> = match self.deposition() {
            Ok(q) => q,
            Err(e) => {
                return Err(e);
            },
        };
        let states: Vec<Primitive2d<K::Real>> = self.hydro.primitives();
        proof {
            lemma_all_cells_count(self@.hydro.cells, self@.hydro.n_x);
            assert(is_over(self@, q));
        }
        let mut dt: K::Real = match self.hydro.stable_dt() {
            Ok(dt) => dt,
            Err(e) => {
                proof {
                    assert(is_coupled_dt_under(self@, q.stored(), Err(Lsd2dError::Hydro(e))));
                }
                return Err(Lsd2dError::Hydro(e));
            },
        };
        let flat: &[K::Real] = q.as_slice();
        let k: &K = self.hydro.scheme();
        let ghost mut trace: Seq<K::Real> = seq![dt];
        let mut settled: bool = false;
        let mut pass: usize = 0;
        while pass < MAX_STEP_PASSES && !settled
            invariant
                *k == self@.hydro.scheme,
                flat@.len() == states@.len(),
                pass <= MAX_STEP_PASSES,
                trace.len() == pass + 1,
                trace.last() == dt,
                is_stable_dt(self@.hydro, Ok(trace[0])),
                is_step_iteration(self@, states@, flat@, trace),
                pass > 0 ==> is_settled_at(self@, trace, pass - 1, settled),
                pass == 0 ==> !settled,
            decreases MAX_STEP_PASSES - pass,
        {
            let next: K::Real = self.next_step(states.as_slice(), flat, dt);
            settled = self.line.is_settled(next, dt);
            proof {
                let t2 = trace.push(next);
                assert forall|i: int| 0 <= i < t2.len() - 1 implies #[trigger] is_pass(
                    self@,
                    states@,
                    flat@,
                    t2,
                    i,
                ) by {
                    if i < trace.len() - 1 {
                        assert(is_pass(self@, states@, flat@, trace, i));
                    }
                }
                assert forall|i: int| 0 <= i < t2.len() - 2 implies #[trigger] is_settled_at(
                    self@,
                    t2,
                    i,
                    false,
                ) by {
                    assert(is_settled_at(self@, trace, i, false));
                }
                trace = t2;
            }
            dt = next;
            pass = pass + 1;
        }
        proof {
            assert(is_iteration_over(self@, trace));
            assert(are_states(self@, states@));
        }
        if !k.is_positive(dt) {
            proof {
                assert(is_coupled_step(
                    self@,
                    flat@,
                    states@,
                    trace,
                    Err(Lsd2dError::NoStableStep),
                ));
                assert(is_coupled_dt_under(self@, flat@, Err(Lsd2dError::NoStableStep)));
            }
            return Err(Lsd2dError::NoStableStep);
        }
        let shaved: K::Real = self.line.shave(dt);
        proof {
            assert(is_coupled_step(self@, flat@, states@, trace, Ok(shaved)));
            assert(is_coupled_dt_under(self@, flat@, Ok(shaved)));
        }
        Ok(shaved)
    }
}

/// What [`Lsd2dColumn::energy_residual`] may return.
pub open spec fn is_residual<K: Beam2d>(c: Column2d<K>, gap: K::Real) -> bool {
    ||| call_ensures(K::has_deposited, (&c.hydro.scheme, c.deposited), false) && call_ensures(
        K::zero,
        (&c.hydro.scheme,),
        gap,
    )
    ||| call_ensures(K::has_deposited, (&c.hydro.scheme, c.deposited), true)
        && exists|energy: K::Real| #[trigger]
        is_integral(c.hydro, energies(), energy) && call_ensures(
            K::budget_gap,
            (&c.hydro.scheme, energy, c.hydro.escaped, c.initial_energy, c.deposited),
            gap,
        )
}

/// Rows of one width make as many entries as the rectangle holds.
proof fn lemma_all_cells_count<S>(rows: Seq<Seq<S>>, width: nat)
    requires
        forall|j: int| 0 <= j < rows.len() ==> #[trigger] rows[j].len() == width,
    ensures
        all_cells(rows).len() == rows.len() * width,
    decreases rows.len(),
{
    if rows.len() > 0 {
        lemma_all_cells_count(rows.drop_last(), width);
        let n = rows.len() as int;
        assert(n * width == (n - 1) * width + width) by (nonlinear_arith);
    } else {
        assert(rows.len() * width == 0) by (nonlinear_arith)
            requires
                rows.len() == 0,
        ;
    }
}

/// `line` is what a pencil sees along ring `j`.
pub open spec fn is_ring_line<K: Beam2d>(
    c: Column2d<K>,
    j: int,
    line: Seq<Primitive<K::Real>>,
) -> bool {
    &&& line.len() == c.hydro.n_x
    &&& forall|i: int| 0 <= i < line.len() ==> is_cell_line(c, j, i, #[trigger] line[i])
}

/// What [`Lsd2dColumn::front_position_at`] may return for ring `j`.
pub open spec fn is_front_at<K: Beam2d>(c: Column2d<K>, j: int, r: Option<K::Real>) -> bool {
    exists|line: Seq<Primitive<K::Real>>| #[trigger]
        is_ring_line(c, j, line) && is_front_in(c.line, c.ambient_line, line, r)
}

/// Ring that a radius falls into, the outermost one at most.
pub open spec fn clamped_ring(ring: usize, n_r: nat) -> int {
    if ring < n_r {
        ring as int
    } else {
        n_r - 1
    }
}

/// What [`Lsd2dColumn::front_lag_at_beam_edge`] may return.
pub open spec fn is_lag<K: Beam2d>(c: Column2d<K>, r: Option<K::Real>) -> bool {
    exists|ring: usize|
        #[trigger] call_ensures(K::ring_of, (&c.hydro.scheme, c.beam.spec_radius()), ring)
            && is_lag_on(c, clamped_ring(ring, c.hydro.cells.len()), r)
}

/// How far the front on ring `j` lags the one on the axis; nothing where one of
/// them is missing.
pub open spec fn is_lag_on<K: Beam2d>(c: Column2d<K>, j: int, r: Option<K::Real>) -> bool {
    ||| r is None && is_front_at(c, j, None)
    ||| r is None && is_front_at(c, 0, None) && exists|edge: K::Real| #[trigger]
        is_front_at(c, j, Some(edge))
    ||| exists|edge: K::Real, axis: K::Real|
        {
            &&& #[trigger] is_front_at(c, j, Some(edge))
            &&& #[trigger] is_front_at(c, 0, Some(axis))
            &&& r matches Some(lag) && call_ensures(
                K::minus,
                (&c.hydro.scheme, edge, axis),
                lag,
            )
        }
}

/// `dt` is the coupled step, clipped at `t_end`.
pub open spec fn is_sized<K: Beam2d>(c: Column2d<K>, t_end: K::Real, dt: K::Real) -> bool {
    exists|limit: K::Real|
        is_coupled_dt(c, Ok(limit)) && #[trigger] call_ensures(
            K::clip,
            (&c.hydro.scheme, limit, c.hydro.time, t_end),
            dt,
        )
}

/// One step of a march towards `t_end`.
pub open spec fn is_marched<K: Beam2d>(
    pre: Column2d<K>,
    t_end: K::Real,
    post: Column2d<K>,
) -> bool {
    &&& call_ensures(K::is_before, (&pre.hydro.scheme, pre.hydro.time, t_end), true)
    &&& exists|dt: K::Real| #[trigger]
        is_sized(pre, t_end, dt) && call_ensures(K::is_positive, (&pre.hydro.scheme, dt), true)
            && is_advance(pre, dt, post, Ok(()))
}

pub open spec fn is_marched_at<K: Beam2d>(
    trace: Seq<Column2d<K>>,
    t_end: K::Real,
    i: int,
) -> bool {
    is_marched(trace[i], t_end, trace[i + 1])
}

/// The columns that a march from `pre` towards `t_end` passes through.
pub open spec fn is_march_to<K: Beam2d>(
    pre: Column2d<K>,
    t_end: K::Real,
    trace: Seq<Column2d<K>>,
) -> bool {
    &&& trace.len() > 0
    &&& trace[0] == pre
    &&& forall|i: int| 0 <= i < trace.len() - 1 ==> #[trigger] is_marched_at(trace, t_end, i)
}

/// Why a march whose last completed step gave `last` ends, leaving `post`. A
/// clipped step that is no step ends it without an error.
pub open spec fn is_march_over<K: Beam2d>(
    last: Column2d<K>,
    t_end: K::Real,
    post: Column2d<K>,
    r: Result<(), Lsd2dError<K::Real>>,
) -> bool {
    let k = last.hydro.scheme;
    match r {
        Ok(_) => {
            &&& post == last
            &&& {
                ||| call_ensures(K::is_before, (&k, last.hydro.time, t_end), false)
                ||| call_ensures(K::is_before, (&k, last.hydro.time, t_end), true) && is_stalled(
                    last,
                    t_end,
                )
            }
        },
        Err(e) => {
            &&& call_ensures(K::is_before, (&k, last.hydro.time, t_end), true)
            &&& {
                ||| post == last && e is StepsExhausted && last.hydro.steps == usize::MAX
                ||| post == last && is_coupled_dt(last, Err(e))
                ||| is_march_refused(last, t_end, post, e)
            }
        },
    }
}

pub open spec fn is_stalled<K: Beam2d>(last: Column2d<K>, t_end: K::Real) -> bool {
    exists|dt: K::Real| #[trigger]
        is_sized(last, t_end, dt) && call_ensures(K::is_positive, (&last.hydro.scheme, dt), false)
}

pub open spec fn is_march_refused<K: Beam2d>(
    last: Column2d<K>,
    t_end: K::Real,
    post: Column2d<K>,
    e: Lsd2dError<K::Real>,
) -> bool {
    exists|dt: K::Real| #[trigger]
        is_sized(last, t_end, dt) && call_ensures(K::is_positive, (&last.hydro.scheme, dt), true)
            && is_advance(last, dt, post, Err(e))
}

/// What a march to `t_end` may do.
pub open spec fn is_advance_to<K: Beam2d>(
    pre: Column2d<K>,
    t_end: K::Real,
    post: Column2d<K>,
    r: Result<(), Lsd2dError<K::Real>>,
) -> bool {
    exists|trace: Seq<Column2d<K>>| #[trigger]
        is_march_to(pre, t_end, trace) && is_march_over(trace.last(), t_end, post, r)
}

/// `v` is the mean speed of a front that was at `x0` in `pre` and is in `post`.
pub open spec fn is_mean_speed<K: Beam2d>(
    pre: Column2d<K>,
    x0: K::Real,
    post: Column2d<K>,
    v: K::Real,
) -> bool {
    exists|x1: K::Real| #[trigger]
        is_front_at(post, 0, Some(x1)) && call_ensures(
            <K::Line as Beam1d>::mean_speed,
            (&post.line, x0, x1, pre.hydro.time, post.hydro.time),
            v,
        )
}

/// How a speed measurement over `span` from a front at `x0` ends.
pub open spec fn is_span_end<K: Beam2d>(
    pre: Column2d<K>,
    span: K::Real,
    x0: K::Real,
    t_end: K::Real,
    post: Column2d<K>,
    r: Result<K::Real, Lsd2dError<K::Real>>,
) -> bool {
    &&& is_front_at(pre, 0, Some(x0))
    &&& call_ensures(K::plus, (&pre.hydro.scheme, pre.hydro.time, span), t_end)
    &&& match r {
        Ok(v) => is_advance_to(pre, t_end, post, Ok(())) && is_mean_speed(pre, x0, post, v),
        Err(e) => {
            ||| is_advance_to(pre, t_end, post, Err(e))
            ||| {
                &&& e is FrontVanished
                &&& is_advance_to(pre, t_end, post, Ok(()))
                &&& is_front_at(post, 0, None)
            }
        },
    }
}

/// What [`Lsd2dColumn::measure_front_speed`] may do.
pub open spec fn is_speed_measured<K: Beam2d>(
    pre: Column2d<K>,
    span: K::Real,
    post: Column2d<K>,
    r: Result<K::Real, Lsd2dError<K::Real>>,
) -> bool {
    ||| (r matches Err(e) && e is NoFront) && is_front_at(pre, 0, None) && post == pre
    ||| exists|x0: K::Real, t_end: K::Real| #[trigger] is_span_end(pre, span, x0, t_end, post, r)
}

/// Whether a cell has left the ambient state.
pub open spec fn is_cell_disturbed<K: Beam2d>(c: Column2d<K>, j: int, i: int, b: bool) -> bool {
    exists|w: Primitive2d<K::Real>|
        #[trigger] call_ensures(K::to_primitive, (&c.hydro.scheme, c.hydro.cells[j][i]), w)
            && call_ensures(K::is_disturbed, (&c.hydro.scheme, w, c.ambient), b)
}

/// Whether the cells of an axial plane are all ambient: none is disturbed, or
/// one is.
pub open spec fn is_plane_quiet<K: Beam2d>(c: Column2d<K>, i: int, quiet: bool) -> bool {
    if quiet {
        forall|j: int| 0 <= j < c.hydro.cells.len() ==> #[trigger] is_cell_disturbed(c, j, i, false)
    } else {
        exists|j: int|
            0 <= j < c.hydro.cells.len() && #[trigger] is_cell_disturbed(c, j, i, true)
    }
}

/// Whether the cells of the outermost ring are all ambient.
pub open spec fn is_rim_quiet<K: Beam2d>(c: Column2d<K>, quiet: bool) -> bool {
    let j = c.hydro.cells.len() - 1;
    if quiet {
        forall|i: int| 0 <= i < c.hydro.n_x ==> #[trigger] is_cell_disturbed(c, j, i, false)
    } else {
        exists|i: int| 0 <= i < c.hydro.n_x && #[trigger] is_cell_disturbed(c, j, i, true)
    }
}

/// Whether the laser-side plane, the rim and the downstream plane are all
/// ambient.
pub open spec fn is_boundary_quiet<K: Beam2d>(c: Column2d<K>, quiet: bool) -> bool {
    let down = c.hydro.n_x - 1;
    if quiet {
        is_plane_quiet(c, 0, true) && is_rim_quiet(c, true) && is_plane_quiet(c, down, true)
    } else {
        is_plane_quiet(c, 0, false) || is_rim_quiet(c, false) || is_plane_quiet(c, down, false)
    }
}

/// The largest absorption of a column.
pub open spec fn is_top_alpha<K: Beam2d>(c: Column2d<K>, alpha: Plane<K::Real>, top: K::Real) -> bool {
    &&& is_over(c, alpha)
    &&& are_alphas(c, alpha@)
    &&& is_max_from_zero(c.line, alpha.stored(), top)
}

/// The verdict on a column whose largest absorption is `top`: the conditions in
/// order, the first that fails naming the error.
pub open spec fn is_verdict<K: Beam2d>(
    c: Column2d<K>,
    top: K::Real,
    r: Result<(), Lsd2dError<K::Real>>,
) -> bool {
    let k = c.hydro.scheme;
    let l = c.line;
    let n_x = c.hydro.n_x as usize;
    let n_r = c.hydro.cells.len() as usize;
    let radius = c.beam.spec_radius();
    let absorbing = call_ensures(<K::Line as Beam1d>::absorbs, (&l, top), true);
    let resolved = absorbing && call_ensures(<K::Line as Beam1d>::is_resolved, (&l, top), true);
    let thin = resolved && call_ensures(<K::Line as Beam1d>::is_thin, (&l, top, n_x), true);
    let sampled = thin && call_ensures(K::beam_is_resolved, (&k, radius), true);
    let wide = sampled && call_ensures(K::domain_is_wide, (&k, n_r, radius), true);
    match r {
        Err(Lsd2dError::NothingAbsorbs) => {
            call_ensures(<K::Line as Beam1d>::absorbs, (&l, top), false)
        },
        Err(Lsd2dError::Unresolved { cells }) => {
            &&& absorbing && call_ensures(<K::Line as Beam1d>::is_resolved, (&l, top), false)
            &&& call_ensures(<K::Line as Beam1d>::cells_spanned, (&l, top), cells)
        },
        Err(Lsd2dError::Volumetric { share }) => {
            &&& resolved && call_ensures(<K::Line as Beam1d>::is_thin, (&l, top, n_x), false)
            &&& call_ensures(<K::Line as Beam1d>::share_spanned, (&l, top, n_x), share)
        },
        Err(Lsd2dError::BeamUnresolved) => {
            thin && call_ensures(K::beam_is_resolved, (&k, radius), false)
        },
        Err(Lsd2dError::DomainTooNarrow) => {
            sampled && call_ensures(K::domain_is_wide, (&k, n_r, radius), false)
        },
        Err(Lsd2dError::NoFront) => wide && is_front_at(c, 0, None),
        Err(Lsd2dError::FrontAtBoundary) => wide && is_front_near(c, true),
        Err(Lsd2dError::Extinguished { fraction }) => {
            wide && is_front_near(c, false) && is_beam_spent(c, fraction)
        },
        Err(Lsd2dError::WeakFront { ratio }) => {
            wide && is_front_near(c, false) && is_beam_judged(c, true) && is_front_weak(c, ratio)
        },
        Ok(_) => {
            wide && is_front_near(c, false) && is_beam_judged(c, true) && is_pressure_judged(c, true)
        },
        Err(_) => false,
    }
}

/// `f` is the fraction of the axis pencil that reaches the leading edge of its
/// strongly absorbing gas: all of it where nothing absorbs.
pub open spec fn is_axis_fraction<K: Beam2d>(
    c: Column2d<K>,
    alpha: Seq<K::Real>,
    top: K::Real,
    f: K::Real,
) -> bool {
    let whole = call_ensures(<K::Line as Beam1d>::one, (&c.line,), f);
    let absorbing = call_ensures(<K::Line as Beam1d>::absorbs, (&c.line, top), true);
    &&& is_max_from_zero(c.line, alpha, top)
    &&& {
        ||| call_ensures(<K::Line as Beam1d>::absorbs, (&c.line, top), false) && whole
        ||| absorbing && none_strong(c.line, alpha, top) && whole
        ||| absorbing && is_axis_fraction_at_front(c, alpha, top, f)
    }
}

/// `f` is the intensity at the first strong absorber of the axis pencil over the
/// intensity with which the pencil enters.
pub open spec fn is_axis_fraction_at_front<K: Beam2d>(
    c: Column2d<K>,
    alpha: Seq<K::Real>,
    top: K::Real,
    f: K::Real,
) -> bool {
    exists|i: int, profile: Seq<K::Real>|
        {
            &&& #[trigger] is_absorption_front(c.line, alpha, top, i)
            &&& #[trigger] is_pencil(c, 0, alpha, profile)
            &&& call_ensures(<K::Line as Beam1d>::ratio, (&c.line, profile[i], profile[0]), f)
        }
}

/// `enough` says whether enough of the axis pencil reaches the front.
pub open spec fn is_beam_judged<K: Beam2d>(c: Column2d<K>, enough: bool) -> bool {
    exists|alpha: Seq<K::Real>, top: K::Real, f: K::Real|
        {
            &&& is_ring_alpha(c, 0, alpha)
            &&& #[trigger] is_axis_fraction(c, alpha, top, f)
            &&& call_ensures(<K::Line as Beam1d>::is_enough, (&c.line, f), enough)
        }
}

/// Of the axis pencil only the fraction `f` reaches the front, which is not enough.
pub open spec fn is_beam_spent<K: Beam2d>(c: Column2d<K>, f: K::Real) -> bool {
    exists|alpha: Seq<K::Real>, top: K::Real|
        {
            &&& is_ring_alpha(c, 0, alpha)
            &&& #[trigger] is_axis_fraction(c, alpha, top, f)
            &&& call_ensures(<K::Line as Beam1d>::is_enough, (&c.line, f), false)
        }
}

/// The largest pressure is not that of a strong detonation, but `ratio` of ambient.
pub open spec fn is_front_weak<K: Beam2d>(c: Column2d<K>, ratio: K::Real) -> bool {
    exists|p: Plane<K::Real>, p_max: K::Real|
        {
            &&& #[trigger] is_pressure_peak(c, p, p_max)
            &&& call_ensures(
                <K::Line as Beam1d>::is_strong,
                (&c.line, p_max, c.ambient_line),
                false,
            )
            &&& call_ensures(<K::Line as Beam1d>::ratio, (&c.line, p_max, c.ambient_line.p), ratio)
        }
}

/// `p` is the pressure of ring `j`, axial cell `i`.
pub open spec fn is_cell_pressure<K: Beam2d>(c: Column2d<K>, j: int, i: int, p: K::Real) -> bool {
    exists|l: Primitive<K::Real>| #[trigger]
        is_cell_line(c, j, i, l) && p == l.p
}

/// `p_max` is the largest pressure of all cells.
pub open spec fn is_pressure_peak<K: Beam2d>(
    c: Column2d<K>,
    p: Plane<K::Real>,
    p_max: K::Real,
) -> bool {
    &&& is_over(c, p)
    &&& forall|j: int, i: int|
        0 <= j < p@.len() && 0 <= i < c.hydro.n_x ==> is_cell_pressure(c, j, i, #[trigger] p@[j][i])
    &&& is_peak(c.line, p.stored(), p_max)
}

/// `strong` says whether the largest pressure is that of a strong detonation.
pub open spec fn is_pressure_judged<K: Beam2d>(c: Column2d<K>, strong: bool) -> bool {
    exists|p: Plane<K::Real>, p_max: K::Real| #[trigger]
        is_pressure_peak(c, p, p_max) && call_ensures(
            <K::Line as Beam1d>::is_strong,
            (&c.line, p_max, c.ambient_line),
            strong,
        )
}

/// Whether the front on the axis is within reach of the laser-side boundary.
pub open spec fn is_front_near<K: Beam2d>(c: Column2d<K>, near: bool) -> bool {
    exists|x: K::Real| #[trigger]
        is_front_at(c, 0, Some(x)) && call_ensures(K::is_near_laser, (&c.hydro.scheme, x), near)
}

/// What [`Lsd2dColumn::check_regime`] may return.
pub open spec fn is_regime_check<K: Beam2d>(
    c: Column2d<K>,
    r: Result<(), Lsd2dError<K::Real>>,
) -> bool {
    ||| r matches Err(Lsd2dError::Absorption(e)) && is_alpha_refusal(c, e)
    ||| exists|alpha: Plane<K::Real>, top: K::Real| #[trigger]
        is_top_alpha(c, alpha, top) && is_verdict(c, top, r)
}

impl<K: Beam2d> Lsd2dColumn<K> {
    /// The gas dynamics, to be changed in place.
    pub fn hydro_mut(&mut self) -> (h: &mut Euler2d<K>)
        requires
            old(self).wf(),
        ensures
            h@ == old(self)@.hydro,
            h.wf(),
            final(self)@ == (Column2d { hydro: final(h)@, ..old(self)@ }),
            final(h).wf() ==> final(self).wf(),
    {
        &mut self.hydro
    }

    /// March to `t_end`, each coupled step sized from the current state and the
    /// last one clipped.
    #[verifier::rlimit(60)]
    #[verifier::spinoff_prover]
    pub fn advance_to(&mut self, t_end: K::Real) -> (r: Result<
        (),
        Lsd2dError<K::Real>,
    >)
        requires
            old(self).wf(),
        ensures
            final(self).wf(),
            is_advance_to(old(self)@, t_end, final(self)@, r),
    {
        let ghost mut trace: Seq<Column2d<K>> = seq![self@];
        loop
            invariant
                self.wf(),
                is_march_to(old(self)@, t_end, trace),
                trace.last() == self@,
            decreases usize::MAX - self@.hydro.steps,
        {
            let ghost pre = self@;
            if !self.hydro.scheme().is_before(self.hydro.time(), t_end) {
                proof {
                    assert(is_march_over(trace.last(), t_end, self@, Ok(())));
                }
                return Ok(());
            }
            if self.hydro.steps() == usize::MAX {
                proof {
                    assert(is_march_over(
                        trace.last(),
                        t_end,
                        self@,
                        Err(Lsd2dError::StepsExhausted),
                    ));
                }
                return Err(Lsd2dError::StepsExhausted);
            }
            let limit: K::Real = match self.stable_dt() {
                Ok(limit) => limit,
                Err(e) => {
                    proof {
                        assert(is_march_over(trace.last(), t_end, self@, Err(e)));
                    }
                    return Err(e);
                },
            };
            let dt: K::Real = self.hydro.scheme().clip(limit, self.hydro.time(), t_end);
            proof {
                assert(is_sized(pre, t_end, dt));
            }
            if !self.hydro.scheme().is_positive(dt) {
                proof {
                    assert(is_stalled(pre, t_end));
                    assert(is_march_over(trace.last(), t_end, self@, Ok(())));
                }
                return Ok(());
            }
            let advanced: Result<(), Lsd2dError<K::Real>> =
                self.advance(dt);
            match advanced {
                Ok(_) => {},
                Err(e) => {
                    proof {
                        assert(is_march_refused(pre, t_end, self@, e));
                        assert(is_march_over(trace.last(), t_end, self@, Err(e)));
                    }
                    return Err(e);
                },
            }
            proof {
                let unit: () = advanced->Ok_0;
                assert(unit == ());
                assert(is_advance(pre, dt, self@, Ok(())));
                assert(is_marched(pre, t_end, self@));
                let longer = trace.push(self@);
                assert forall|i: int| 0 <= i < longer.len() - 1 implies #[trigger] is_marched_at(
                    longer,
                    t_end,
                    i,
                ) by {
                    if i < trace.len() - 1 {
                        assert(is_marched_at(trace, t_end, i));
                    }
                }
                trace = longer;
            }
        }
    }

    /// Position of the front on ring `j`: the laser-side edge of the pressure
    /// rise, at half the rise.
    pub fn front_position_at(&self, j: usize) -> (r: Option<K::Real>)
        requires
            self.wf(),
            j < self@.hydro.cells.len(),
        ensures
            is_front_at(self@, j as int, r),
    {
        let n: usize = self.hydro.n_x();
        let mut line: Vec<Primitive<K::Real>> = Vec::with_capacity(n);
        for i in 0..n
            invariant
                self.wf(),
                j < self@.hydro.cells.len(),
                n == self@.hydro.n_x,
                line@.len() == i,
                forall|m: int| 0 <= m < i ==> is_cell_line(self@, j as int, m, #[trigger] line@[m]),
        {
            let l: Primitive<K::Real> = self.cell_line(j, i);
            line.push(l);
        }
        proof {
            assert(is_ring_line(self@, j as int, line@));
        }
        find_front(&self.line, self.ambient_line, line.as_slice())
    }

    /// Position of the front on the axis.
    pub fn front_position(&self) -> (r: Option<K::Real>)
        requires
            self.wf(),
        ensures
            is_front_at(self@, 0, r),
    {
        self.front_position_at(0)
    }

    /// How far the front at the beam edge lags the front on the axis.
    pub fn front_lag_at_beam_edge(&self) -> (r: Option<K::Real>)
        requires
            self.wf(),
        ensures
            is_lag(self@, r),
    {
        let k: &K = self.hydro.scheme();
        let ring: usize = k.ring_of(self.beam.radius());
        let n_r: usize = self.hydro.n_r();
        let j: usize = if ring < n_r {
            ring
        } else {
            n_r - 1
        };
        let ghost jj = clamped_ring(ring, self@.hydro.cells.len());
        let edge: K::Real = match self.front_position_at(j) {
            Some(x) => x,
            None => {
                proof {
                    assert(is_lag_on(self@, jj, None));
                }
                return None;
            },
        };
        let axis: K::Real = match self.front_position() {
            Some(x) => x,
            None => {
                proof {
                    assert(is_front_at(self@, jj, Some(edge)));
                    assert(is_lag_on(self@, jj, None));
                }
                return None;
            },
        };
        let lag: K::Real = k.minus(edge, axis);
        proof {
            assert(is_front_at(self@, jj, Some(edge)));
            assert(is_front_at(self@, 0, Some(axis)));
            assert(is_lag_on(self@, jj, Some(lag)));
        }
        Some(lag)
    }

    /// Advance by `span` and return the mean speed of the front on the axis over
    /// it, towards the laser.
    pub fn measure_front_speed(&mut self, span: K::Real) -> (r: Result<
        K::Real,
        Lsd2dError<K::Real>,
    >)
        requires
            old(self).wf(),
        ensures
            final(self).wf(),
            is_speed_measured(old(self)@, span, final(self)@, r),
    {
        let ghost pre = self@;
        let x0: K::Real = match self.front_position() {
            Some(x) => x,
            None => {
                return Err(Lsd2dError::NoFront);
            },
        };
        let t0: K::Real = self.hydro.time();
        let t_end: K::Real = self.hydro.scheme().plus(t0, span);
        let advanced: Result<(), Lsd2dError<K::Real>> =
            self.advance_to(t_end);
        match advanced {
            Ok(_) => {},
            Err(e) => {
                proof {
                    assert(is_span_end(pre, span, x0, t_end, self@, Err(e)));
                }
                return Err(e);
            },
        }
        proof {
            let unit: () = advanced->Ok_0;
            assert(unit == ());
            assert(is_advance_to(pre, t_end, self@, Ok(())));
        }
        let x1: K::Real = match self.front_position() {
            Some(x) => x,
            None => {
                proof {
                    assert(is_span_end(
                        pre,
                        span,
                        x0,
                        t_end,
                        self@,
                        Err(Lsd2dError::FrontVanished),
                    ));
                }
                return Err(Lsd2dError::FrontVanished);
            },
        };
        let v: K::Real = self.line.mean_speed(x0, x1, t0, self.hydro.time());
        proof {
            assert(is_front_at(self@, 0, Some(x1)));
            assert(is_mean_speed(pre, x0, self@, v));
            assert(is_span_end(pre, span, x0, t_end, self@, Ok(v)));
        }
        Ok(v)
    }

    /// Whether a cell has left the ambient state.
    fn disturbed(&self, j: usize, i: usize) -> (b: bool)
        requires
            self.wf(),
            j < self@.hydro.cells.len(),
            i < self@.hydro.n_x,
        ensures
            is_cell_disturbed(self@, j as int, i as int, b),
    {
        let k: &K = self.hydro.scheme();
        let w: Primitive2d<K::Real> = k.to_primitive(self.hydro.cell(j, i));
        k.is_disturbed(w, self.ambient)
    }

    /// Whether the cells of an axial plane are all ambient.
    fn plane_undisturbed(&self, i: usize) -> (quiet: bool)
        requires
            self.wf(),
            i < self@.hydro.n_x,
        ensures
            is_plane_quiet(self@, i as int, quiet),
    {
        let n_r: usize = self.hydro.n_r();
        for j in 0..n_r
            invariant
                self.wf(),
                i < self@.hydro.n_x,
                n_r == self@.hydro.cells.len(),
                forall|l: int|
                    0 <= l < j ==> #[trigger] is_cell_disturbed(self@, l, i as int, false),
        {
            let moved: bool = self.disturbed(j, i);
            if moved {
                proof {
                    assert(is_cell_disturbed(self@, j as int, i as int, true));
                }
                return false;
            }
        }
        true
    }

    /// Whether the laser-side plane is still ambient.
    pub fn axial_boundaries_undisturbed(&self) -> (quiet: bool)
        requires
            self.wf(),
        ensures
            is_plane_quiet(self@, 0, quiet),
    {
        self.plane_undisturbed(0)
    }

    /// Whether the downstream plane is still ambient.
    pub fn downstream_undisturbed(&self) -> (quiet: bool)
        requires
            self.wf(),
        ensures
            is_plane_quiet(self@, self@.hydro.n_x - 1, quiet),
    {
        let n_x: usize = self.hydro.n_x();
        self.plane_undisturbed(n_x - 1)
    }

    /// Whether the outermost ring is still ambient.
    pub fn rim_undisturbed(&self) -> (quiet: bool)
        requires
            self.wf(),
        ensures
            is_rim_quiet(self@, quiet),
    {
        let n_x: usize = self.hydro.n_x();
        let j: usize = self.hydro.n_r() - 1;
        for i in 0..n_x
            invariant
                self.wf(),
                j == self@.hydro.cells.len() - 1,
                n_x == self@.hydro.n_x,
                forall|l: int|
                    0 <= l < i ==> #[trigger] is_cell_disturbed(self@, j as int, l, false),
        {
            let moved: bool = self.disturbed(j, i);
            if moved {
                proof {
                    assert(is_cell_disturbed(self@, j as int, i as int, true));
                }
                return false;
            }
        }
        true
    }

    /// Whether both axial planes and the rim are still ambient.
    pub fn boundaries_undisturbed(&self) -> (quiet: bool)
        requires
            self.wf(),
        ensures
            is_boundary_quiet(self@, quiet),
    {
        self.axial_boundaries_undisturbed() && self.rim_undisturbed()
            && self.downstream_undisturbed()
    }

    /// Fraction of the axis pencil that reaches the leading edge of its strongly
    /// absorbing gas, whose absorption is `alpha`.
    fn axis_fraction(&self, alpha: &[K::Real]) -> (f: K::Real)
        requires
            self.wf(),
            alpha@.len() < usize::MAX,
        ensures
            exists|top: K::Real| #[trigger] is_axis_fraction(self@, alpha@, top, f),
    {
        let zero: K::Real = self.line.zero();
        let top: K::Real = max_of(&self.line, zero, alpha);
        proof {
            assert(is_max_from_zero(self@.line, alpha@, top));
        }
        if !self.line.absorbs(top) {
            let one: K::Real = self.line.one();
            proof {
                assert(is_axis_fraction(self@, alpha@, top, one));
            }
            return one;
        }
        match absorption_front(&self.line, alpha, top) {
            None => {
                let one: K::Real = self.line.one();
                proof {
                    assert(is_axis_fraction(self@, alpha@, top, one));
                }
                one
            },
            Some(i) => {
                let profile: Vec<K::Real> = self.pencil(0, alpha);
                let f: K::Real = self.line.ratio(profile[i], profile[0]);
                proof {
                    assert(is_absorption_front(self@.line, alpha@, top, i as int));
                    assert(is_pencil(self@, 0, alpha@, profile@));
                    assert(is_axis_fraction_at_front(self@, alpha@, top, f));
                    assert(is_axis_fraction(self@, alpha@, top, f));
                }
                f
            },
        }
    }

    /// The largest pressure of all cells.
    fn peak_pressure(&self) -> (p_max: K::Real)
        requires
            self.wf(),
        ensures
            exists|p: Plane<K::Real>| #[trigger] is_pressure_peak(self@, p, p_max),
    {
        let (n_r, n_x): (usize, usize) = (self.hydro.n_r(), self.hydro.n_x());
        proof {
            self.hydro.lemma_area_fits();
        }
        let mut p: Plane<K::Real> = Plane::filled(n_r, n_x, self.hydro.scheme().zero());
        for j in 0..n_r
            invariant
                self.wf(),
                n_r == self@.hydro.cells.len(),
                n_x == self@.hydro.n_x,
                is_over(self@, p),
                forall|l: int, m: int|
                    0 <= l < j && 0 <= m < n_x ==> is_cell_pressure(
                        self@,
                        l,
                        m,
                        #[trigger] p@[l][m],
                    ),
        {
            let mut row: Vec<K::Real> = Vec::with_capacity(n_x);
            for i in 0..n_x
                invariant
                    self.wf(),
                    j < self@.hydro.cells.len(),
                    n_x == self@.hydro.n_x,
                    row@.len() == i,
                    forall|m: int|
                        0 <= m < i ==> is_cell_pressure(self@, j as int, m, #[trigger] row@[m]),
            {
                let l: Primitive<K::Real> = self.cell_line(j, i);
                let v: K::Real = l.p;
                proof {
                    assert(is_cell_line(self@, j as int, i as int, l));
                    assert(is_cell_pressure(self@, j as int, i as int, v));
                }
                row.push(v);
            }
            p.set_row(j, row.as_slice());
        }
        let lowest: K::Real = self.line.lowest();
        let p_max: K::Real = max_of(&self.line, lowest, p.as_slice());
        proof {
            assert(is_peak(self@.line, p.stored(), p_max));
            assert(is_pressure_peak(self@, p, p_max));
        }
        p_max
    }

    /// Whether the column is in the regime that the model describes: the
    /// absorption resolved and thin, the beam resolved and far from the wall,
    /// the front inside the domain, reached by the beam, and strong.
    pub fn check_regime(&self) -> (r: Result<
        (),
        Lsd2dError<K::Real>,
    >)
        requires
            self.wf(),
        ensures
            is_regime_check(self@, r),
    {
        let alpha: Plane<K::Real> = match self.alpha_profile() {
            Ok(alpha) => alpha,
            Err(e) => {
                return Err(e);
            },
        };
        let (n_r, n_x): (usize, usize) = (self.hydro.n_r(), self.hydro.n_x());
        let k: &K = self.hydro.scheme();
        let zero: K::Real = self.line.zero();
        let top: K::Real = max_of(&self.line, zero, alpha.as_slice());
        proof {
            assert(is_max_from_zero(self@.line, alpha.stored(), top));
            assert(is_top_alpha(self@, alpha, top));
        }
        if !self.line.absorbs(top) {
            return Err(Lsd2dError::NothingAbsorbs);
        }
        if !self.line.is_resolved(top) {
            return Err(Lsd2dError::Unresolved { cells: self.line.cells_spanned(top) });
        }
        if !self.line.is_thin(top, n_x) {
            return Err(Lsd2dError::Volumetric { share: self.line.share_spanned(top, n_x) });
        }
        let radius: K::Real = self.beam.radius();
        if !k.beam_is_resolved(radius) {
            return Err(Lsd2dError::BeamUnresolved);
        }
        if !k.domain_is_wide(n_r, radius) {
            return Err(Lsd2dError::DomainTooNarrow);
        }
        match self.front_position() {
            None => Err(Lsd2dError::NoFront),
            Some(x) => {
                proof {
                    assert(is_front_at(self@, 0, Some(x)));
                }
                if k.is_near_laser(x) {
                    proof {
                        assert(is_front_near(self@, true));
                    }
                    Err(Lsd2dError::FrontAtBoundary)
                } else {
                    proof {
                        assert(is_front_near(self@, false));
                        assert(is_ring_alpha(self@, 0, alpha@[0]));
                    }
                    let axis: Vec<K::Real> = alpha.row(0);
                    let f: K::Real = self.axis_fraction(axis.as_slice());
                    let enough: bool = self.line.is_enough(f);
                    proof {
                        let t = choose|t: K::Real| #[trigger]
                            is_axis_fraction(self@, axis@, t, f);
                        assert(is_axis_fraction(self@, axis@, t, f));
                        assert(is_beam_judged(self@, enough));
                        assert(!enough ==> is_beam_spent(self@, f));
                    }
                    if !enough {
                        return Err(Lsd2dError::Extinguished { fraction: f });
                    }
                    let p_max: K::Real = self.peak_pressure();
                    let strong: bool = self.line.is_strong(p_max, self.ambient_line);
                    proof {
                        let p = choose|p: Plane<K::Real>| #[trigger]
                            is_pressure_peak(self@, p, p_max);
                        assert(is_pressure_peak(self@, p, p_max));
                        assert(is_pressure_judged(self@, strong));
                    }
                    if !strong {
                        let ratio: K::Real = self.line.ratio(p_max, self.ambient_line.p);
                        proof {
                            let p = choose|p: Plane<K::Real>| #[trigger]
                                is_pressure_peak(self@, p, p_max);
                            assert(is_pressure_peak(self@, p, p_max));
                            assert(is_front_weak(self@, ratio));
                        }
                        return Err(Lsd2dError::WeakFront { ratio });
                    }
                    Ok(())
                }
            },
        }
    }
}

/// What a ring absorbs adds up to what its own pencil loses: the share of the
/// beam that enters the ring less what leaves it at the far end.
pub proof fn law_each_ring_absorbs_its_pencil<K: Beam2d>(
    c: Column2d<K>,
    j: int,
    alpha: Seq<K::Real>,
    q: Seq<K::Real>,
    power: spec_fn(K::Real) -> real,
    density: spec_fn(K::Real) -> real,
)
    requires
        is_ring_deposit(c, j, alpha, q),
        absorbs_the_loss(c.line, power, density),
    ensures
        exists|start: K::Real, profile: Seq<K::Real>|
            {
                &&& is_start(c, j, start)
                &&& #[trigger] is_march(c.line, start, alpha, profile)
                &&& tally(density, q) == power(start) - power(profile.last())
            },
{
    let profile = choose|profile: Seq<K::Real>| #[trigger]
        is_pencil(c, j, alpha, profile) && is_absorbed(c.line, profile, q);
    let start = choose|s: K::Real| #[trigger]
        is_start(c, j, s) && is_march(c.line, s, alpha, profile);
    law_absorption_is_the_loss(c.line, profile, q, power, density);
    assert(is_march(c.line, start, alpha, profile));
}

/// What a rate is worth in a ring of the given volume.
pub open spec fn at_volume<R>(gain: spec_fn(R, R) -> real, volume: R) -> spec_fn(R) -> real {
    |q: R| gain(volume, q)
}

/// A source that acts for `dt` adds `gain` of its rate to what a cell of a ring
/// holds, the power of the ring is the same of the sum of its rates, and the
/// ledger takes the whole power.
pub open spec fn banks_what_it_heats<K: Beam2d>(
    c: Column2d<K>,
    dt: K::Real,
    m: Measure<K::Real>,
    gain: spec_fn(K::Real, K::Real) -> real,
    power: spec_fn(K::Real) -> real,
) -> bool {
    let k = c.hydro.scheme;
    &&& forall|volume: K::Real| is_additive(c.line, #[trigger] at_volume(gain, volume))
    &&& forall|u: Conserved2d<K::Real>, q: K::Real, v: Conserved2d<K::Real>, volume: K::Real|
        #![trigger stored_in(m)(v, volume), is_warmed(k, dt, u, q, v)]
        is_warmed(k, dt, u, q, v) ==> stored_in(m)(v, volume) == stored_in(m)(u, volume) + gain(
            volume,
            q,
        )
    &&& forall|zero: K::Real| #[trigger] call_ensures(K::zero, (&k,), zero) ==> power(zero) == 0real
    &&& forall|
        volume: K::Real,
        dx: K::Real,
        weight: K::Real,
        before: K::Real,
        sum: K::Real,
        after: K::Real,
    | #[trigger]
        call_ensures(K::dx, (&k,), dx) && #[trigger] call_ensures(K::times, (&k, volume, dx), weight)
            && #[trigger] is_weighted_sum(k, before, sum, weight, after) ==> power(after) == power(
            before,
        ) + gain(volume, sum)
    &&& forall|total: K::Real, rate: K::Real, after: K::Real| #[trigger]
        is_weighted_sum(k, total, dt, rate, after) ==> (m.worth)(after) == (m.worth)(total) + power(
            rate,
        )
}

proof fn lemma_ring_heats<K: Beam2d>(
    c: Column2d<K>,
    dt: K::Real,
    q: Seq<Seq<K::Real>>,
    after_heat: Seq<Seq<Conserved2d<K::Real>>>,
    m: Measure<K::Real>,
    gain: spec_fn(K::Real, K::Real) -> real,
    power: spec_fn(K::Real) -> real,
    j: int,
    w: int,
)
    requires
        are_mapped::<K>(c.hydro.cells, heated(c.hydro.scheme, dt, listed(q)), after_heat),
        banks_what_it_heats(c, dt, m, gain, power),
        0 <= j < c.hydro.cells.len(),
        q.len() == c.hydro.cells.len(),
        q[j].len() == c.hydro.cells[j].len(),
        0 <= w <= q[j].len(),
    ensures
        ({
            let volume = c.hydro.volumes[N_GHOST + j];
            tally(in_volume(m, volume), after_heat[j].subrange(0, w)) == tally(
                in_volume(m, volume),
                c.hydro.cells[j].subrange(0, w),
            ) + tally(at_volume(gain, volume), q[j].subrange(0, w))
        }),
    decreases w,
{
    let (before, after) = (c.hydro.cells[j], after_heat[j]);
    let volume = c.hydro.volumes[N_GHOST + j];
    if w > 0 {
        let i = w - 1;
        lemma_ring_heats(c, dt, q, after_heat, m, gain, power, j, i);
        assert(after.subrange(0, w).drop_last() =~= after.subrange(0, i));
        assert(before.subrange(0, w).drop_last() =~= before.subrange(0, i));
        assert(q[j].subrange(0, w).drop_last() =~= q[j].subrange(0, i));
        let f = heated(c.hydro.scheme, dt, listed(q));
        assert(f(j, i, before[i], after[i]));
        assert(stored_in(m)(after[i], volume) == stored_in(m)(before[i], volume) + gain(
            volume,
            q[j][i],
        ));
    } else {
        assert(after.subrange(0, 0) =~= before.subrange(0, 0));
    }
}

proof fn lemma_rings_heat<K: Beam2d>(
    c: Column2d<K>,
    dt: K::Real,
    q: Seq<Seq<K::Real>>,
    after_heat: Seq<Seq<Conserved2d<K::Real>>>,
    run: Seq<K::Real>,
    m: Measure<K::Real>,
    gain: spec_fn(K::Real, K::Real) -> real,
    power: spec_fn(K::Real) -> real,
    n: int,
)
    requires
        are_mapped::<K>(c.hydro.cells, heated(c.hydro.scheme, dt, listed(q)), after_heat),
        banks_what_it_heats(c, dt, m, gain, power),
        q.len() == c.hydro.cells.len(),
        forall|j: int| 0 <= j < q.len() ==> #[trigger] q[j].len() == c.hydro.cells[j].len(),
        is_power_run(c, q, q.len() as int, run),
        0 <= n <= q.len(),
    ensures
        held(m, after_heat, c.hydro.volumes, n) == held(m, c.hydro.cells, c.hydro.volumes, n)
            + power(run[n]),
    decreases n,
{
    if n > 0 {
        let j = n - 1;
        lemma_rings_heat(c, dt, q, after_heat, run, m, gain, power, j);
        assert(q[j].len() == c.hydro.cells[j].len());
        assert(after_heat[j].len() == c.hydro.cells[j].len());
        let w = q[j].len() as int;
        lemma_ring_heats(c, dt, q, after_heat, m, gain, power, j, w);
        assert(after_heat[j].subrange(0, w) =~= after_heat[j]);
        assert(c.hydro.cells[j].subrange(0, w) =~= c.hydro.cells[j]);
        assert(q[j].subrange(0, w) =~= q[j]);
        let k = c.hydro.scheme;
        let volume = c.hydro.volumes[N_GHOST + j];
        assert(is_ring_power(c, j, q[j], run[j], run[j + 1]));
        let (sum, dx, weight) = choose|sum: K::Real, dx: K::Real, weight: K::Real|
            {
                &&& #[trigger] is_sum(c.line, q[j], sum)
                &&& #[trigger] call_ensures(K::dx, (&k,), dx)
                &&& #[trigger] call_ensures(K::times, (&k, volume, dx), weight)
                &&& is_weighted_sum(k, run[j], sum, weight, run[j + 1])
            };
        assert(is_additive(c.line, at_volume(gain, volume)));
        lemma_sum_measures(c.line, q[j], sum, at_volume(gain, volume));
        assert(power(run[j + 1]) == power(run[j]) + gain(volume, sum));
    }
}

/// Over a source step, the energy that the gas gains over all rings is the energy
/// that the ledger takes, and nothing escapes.
pub proof fn law_deposit_balances<K: Beam2d>(
    pre: Column2d<K>,
    dt: K::Real,
    post: Column2d<K>,
    m: Measure<K::Real>,
    gain: spec_fn(K::Real, K::Real) -> real,
    power: spec_fn(K::Real) -> real,
)
    requires
        pre.hydro.valid(),
        is_deposit(pre, dt, post, Ok(())),
        banks_what_it_heats(pre, dt, m, gain, power),
    ensures
        post.hydro.valid(),
        post.line == pre.line,
        post.hydro == (Domain2d { cells: post.hydro.cells, ..pre.hydro }),
        post.hydro.cells.len() == pre.hydro.cells.len(),
        holding(m, post.hydro) - holding(m, pre.hydro) == (m.worth)(post.deposited) - (m.worth)(
            pre.deposited,
        ),
{
    let q = choose|q: Seq<Seq<K::Real>>| #[trigger]
        is_deposited(pre, q) && is_banking(pre, dt, q, post, Ok(()));
    let alpha = choose|alpha: Seq<Seq<K::Real>>| #[trigger]
        are_alphas(pre, alpha) && are_deposits(pre, alpha, q);
    assert forall|j: int| 0 <= j < q.len() implies #[trigger] q[j].len()
        == pre.hydro.cells[j].len() by {
        assert(is_ring_deposit(pre, j, alpha[j], q[j]));
        assert(is_ring_alpha(pre, j, alpha[j]));
    }
    let rate = choose|rate: K::Real| #[trigger]
        is_power(pre, q, rate) && is_weighted_sum(
            pre.hydro.scheme,
            pre.deposited,
            dt,
            rate,
            post.deposited,
        );
    let run = choose|run: Seq<K::Real>| #[trigger]
        is_power_run(pre, q, q.len() as int, run) && run.last() == rate;
    lemma_rings_heat(pre, dt, q, post.hydro.cells, run, m, gain, power, q.len() as int);
    assert forall|j: int| 0 <= j < post.hydro.cells.len() implies #[trigger] post.hydro.cells[
    j].len() == post.hydro.n_x by {
        assert(pre.hydro.cells[j].len() == pre.hydro.n_x);
    }
}

/// The energy budget of a coupled step: what the gas gains and what escapes
/// through the transmissive edges add up to what the beam deposits.
pub proof fn law_coupled_step_closes_the_budget<K: Beam2d>(
    pre: Column2d<K>,
    dt: K::Real,
    post: Column2d<K>,
    m: Measure<K::Real>,
    gain: spec_fn(K::Real, K::Real) -> real,
    power: spec_fn(K::Real) -> real,
)
    requires
        pre.hydro.valid(),
        pre.hydro.steps < usize::MAX,
        is_advance(pre, dt, post, Ok(())),
        is_exact(pre.hydro, m),
        forall|half: K::Real, a: Column2d<K>, b: Column2d<K>| #[trigger]
            is_advance_staged(pre, dt, half, a, b, post, Ok(())) ==> walls_hold_gas(
                a.hydro,
                dt,
                b.hydro,
                m.worth,
            ),
        forall|half: K::Real| #[trigger]
            call_ensures(K::half, (&pre.hydro.scheme, dt), half) ==> banks_what_it_heats(
                pre,
                half,
                m,
                gain,
                power,
            ),
    ensures
        holding(m, post.hydro) - holding(m, pre.hydro) + (m.worth)(post.hydro.escaped) - (m.worth)(
            pre.hydro.escaped,
        ) == (m.worth)(post.deposited) - (m.worth)(pre.deposited),
{
    let (half, a, b) = choose|half: K::Real, a: Column2d<K>, b: Column2d<K>| #[trigger]
        is_advance_staged(pre, dt, half, a, b, post, Ok(()));
    law_deposit_balances(pre, half, a, m, gain, power);
    law_step_conserves(a.hydro, dt, b.hydro, m);
    law_deposit_balances(b, half, post, m, gain, power);
}

/// The same budget, of the totals themselves.
pub proof fn law_coupled_step_keeps_the_totals<K: Beam2d>(
    pre: Column2d<K>,
    dt: K::Real,
    post: Column2d<K>,
    before: K::Real,
    after: K::Real,
    m: Measure<K::Real>,
    gain: spec_fn(K::Real, K::Real) -> real,
    power: spec_fn(K::Real) -> real,
)
    requires
        pre.hydro.valid(),
        pre.hydro.steps < usize::MAX,
        is_advance(pre, dt, post, Ok(())),
        is_exact(pre.hydro, m),
        forall|half: K::Real, a: Column2d<K>, b: Column2d<K>| #[trigger]
            is_advance_staged(pre, dt, half, a, b, post, Ok(())) ==> walls_hold_gas(
                a.hydro,
                dt,
                b.hydro,
                m.worth,
            ),
        is_read(energies(), m),
        is_integral(pre.hydro, energies(), before),
        is_integral(post.hydro, energies(), after),
        forall|half: K::Real| #[trigger]
            call_ensures(K::half, (&pre.hydro.scheme, dt), half) ==> banks_what_it_heats(
                pre,
                half,
                m,
                gain,
                power,
            ),
    ensures
        (m.worth)(after) - (m.worth)(before) + (m.worth)(post.hydro.escaped) - (m.worth)(
            pre.hydro.escaped,
        ) == (m.worth)(post.deposited) - (m.worth)(pre.deposited),
{
    law_coupled_step_closes_the_budget(pre, dt, post, m, gain, power);
    let (half, a, b) = choose|half: K::Real, a: Column2d<K>, b: Column2d<K>| #[trigger]
        is_advance_staged(pre, dt, half, a, b, post, Ok(()));
    law_deposit_balances(pre, half, a, m, gain, power);
    law_step_conserves(a.hydro, dt, b.hydro, m);
    law_deposit_balances(b, half, post, m, gain, power);
    law_total_is_what_is_held(pre.hydro, energies(), before, m);
    law_total_is_what_is_held(post.hydro, energies(), after, m);
}

/// No cell of any ring gives light back: what is deposited is never negative, where
/// no coefficient and no beam that enters a ring is.
pub proof fn law_deposits_are_never_negative<K: Beam2d>(
    c: Column2d<K>,
    q: Seq<Seq<K::Real>>,
    size: spec_fn(K::Real) -> real,
    j: int,
    i: int,
)
    requires
        is_deposited(c, q),
        forall|i: int, a: K::Real| #[trigger]
            is_cell_alpha(c, j, i, a) && 0 <= i < c.hydro.n_x ==> size(a) >= 0real,
        forall|s: K::Real| #[trigger] is_start(c, j, s) ==> size(s) >= 0real,
        only_dims(c.line, size),
        forall|a: K::Real, b: K::Real, d: K::Real| #[trigger]
            call_ensures(<K::Line as Beam1d>::absorbed, (&c.line, a, b), d) && size(b) <= size(a)
                ==> size(d) >= 0real,
        0 <= j < q.len(),
        0 <= i < q[j].len(),
    ensures
        size(q[j][i]) >= 0real,
{
    let alpha = choose|alpha: Seq<Seq<K::Real>>| #[trigger]
        are_alphas(c, alpha) && are_deposits(c, alpha, q);
    assert(is_ring_deposit(c, j, alpha[j], q[j]));
    assert(is_ring_alpha(c, j, alpha[j]));
    let profile = choose|profile: Seq<K::Real>| #[trigger]
        is_pencil(c, j, alpha[j], profile) && is_absorbed(c.line, profile, q[j]);
    let start = choose|s: K::Real| #[trigger]
        is_start(c, j, s) && is_march(c.line, s, alpha[j], profile);
    crate::lsd::law_deposits_are_never_negative(
        c.line,
        start,
        alpha[j],
        profile,
        q[j],
        size,
        i,
    );
}

} // verus!

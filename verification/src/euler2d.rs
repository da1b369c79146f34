//! Two-dimensional compressible flow, planar or axisymmetric: the
//! dimensionally split MUSCL-Hancock driver.
//!
//! A step is a radial half-sweep, an axial sweep and a radial half-sweep. A
//! sweep takes one line of cells at a time: pad it, reconstruct the faces of
//! every cell that has both neighbours with that cell's own metric, solve one
//! Riemann problem per interface, and take the weighted flux difference.
//! Mirroring boundaries reverse the normal momentum of their ghosts, and ghost
//! faces are reflected about the wall, so that the metric mirrors too.
//!
//! Faces and updates are those of [`crate::reconstruct`], fluxes those of
//! [`crate::riemann`] with what moves across the line riding along; the single
//! operations on numbers and states belong to a [`Scheme2d`].
use crate::euler1d::{Conserved, N_GHOST};
use crate::plane::{column_of, with_column, Plane};
use crate::reconstruct::{are_weighted_faces, is_weighted_update, weighted_faces, weighted_update};
use crate::riemann::{hllc_flux, is_hllc, Acoustics};
use vstd::prelude::*;

verus! {

/// The direction of a sweep.
#[derive(Debug, Clone, Copy, PartialEq, Eq, Structural)]
pub enum Dir {
    /// Along the beam axis. Never area-weighted.
    Axial,
    /// Along the radius.
    Radial,
}

/// Planar slab or axisymmetric annuli. The two differ only in the interface
/// areas and the ring volumes of the radial sweep.
#[derive(Debug, Clone, Copy, PartialEq, Eq, Structural)]
pub enum Geometry {
    Planar,
    Axisymmetric,
}

/// What the solver does at a domain edge.
#[derive(Debug, Clone, Copy, PartialEq, Eq, Structural)]
pub enum Boundary2d {
    /// Zero-gradient outflow.
    Transmissive,
    /// Solid wall: normal momentum reversed, everything else mirrored.
    Reflective,
    /// The symmetry axis: a statement about the coordinates, filled as a wall.
    Axis,
}

impl Boundary2d {
    pub open spec fn spec_mirrors(self) -> bool {
        self == Boundary2d::Reflective || self == Boundary2d::Axis
    }

    /// Whether the ghosts mirror the interior.
    pub fn mirrors(self) -> (b: bool)
        ensures
            b == self.spec_mirrors(),
    {
        matches!(self, Boundary2d::Reflective | Boundary2d::Axis)
    }
}

/// State of a two-dimensional flow as a caller states it: density, radial and
/// axial velocity, pressure.
#[derive(Debug, Clone, Copy, PartialEq)]
pub struct Primitive2d<R> {
    pub rho: R,
    pub u_r: R,
    pub u_x: R,
    pub p: R,
}

/// Conserved state: density, radial and axial momentum density, total energy
/// density.
#[derive(Debug, Clone, Copy, PartialEq)]
pub struct Conserved2d<R> {
    pub rho: R,
    pub mom_r: R,
    pub mom_x: R,
    pub energy: R,
}

impl<R: Copy> Conserved2d<R> {
    /// Combine two states component by component.
    pub fn zip<F: Fn(R, R) -> R>(self, other: Self, f: F) -> (out: Self)
        requires
            forall|a: R, b: R| #[trigger] call_requires(f, (a, b)),
        ensures
            call_ensures(f, (self.rho, other.rho), out.rho),
            call_ensures(f, (self.mom_r, other.mom_r), out.mom_r),
            call_ensures(f, (self.mom_x, other.mom_x), out.mom_x),
            call_ensures(f, (self.energy, other.energy), out.energy),
    {
        Conserved2d {
            rho: f(self.rho, other.rho),
            mom_r: f(self.mom_r, other.mom_r),
            mom_x: f(self.mom_x, other.mom_x),
            energy: f(self.energy, other.energy),
        }
    }

    /// Map a state component by component.
    pub fn map<F: Fn(R) -> R>(self, f: F) -> (out: Self)
        requires
            forall|a: R| #[trigger] call_requires(f, (a,)),
        ensures
            call_ensures(f, (self.rho,), out.rho),
            call_ensures(f, (self.mom_r,), out.mom_r),
            call_ensures(f, (self.mom_x,), out.mom_x),
            call_ensures(f, (self.energy,), out.energy),
    {
        Conserved2d {
            rho: f(self.rho),
            mom_r: f(self.mom_r),
            mom_x: f(self.mom_x),
            energy: f(self.energy),
        }
    }

    /// The momentum along a sweep.
    pub open spec fn spec_parallel(self, dir: Dir) -> R {
        match dir {
            Dir::Axial => self.mom_x,
            Dir::Radial => self.mom_r,
        }
    }

    /// The momentum across a sweep.
    pub open spec fn spec_transverse(self, dir: Dir) -> R {
        match dir {
            Dir::Axial => self.mom_r,
            Dir::Radial => self.mom_x,
        }
    }

    pub fn parallel(self, dir: Dir) -> (p: R)
        ensures
            p == self.spec_parallel(dir),
    {
        match dir {
            Dir::Axial => self.mom_x,
            Dir::Radial => self.mom_r,
        }
    }

    pub fn transverse(self, dir: Dir) -> (t: R)
        ensures
            t == self.spec_transverse(dir),
    {
        match dir {
            Dir::Axial => self.mom_r,
            Dir::Radial => self.mom_x,
        }
    }

    /// A state from its components along and across a sweep.
    pub open spec fn spec_assemble(dir: Dir, rho: R, par: R, tr: R, energy: R) -> Self {
        match dir {
            Dir::Axial => Conserved2d { rho, mom_r: tr, mom_x: par, energy },
            Dir::Radial => Conserved2d { rho, mom_r: par, mom_x: tr, energy },
        }
    }

    pub fn assemble(dir: Dir, rho: R, par: R, tr: R, energy: R) -> (u: Self)
        ensures
            u == Self::spec_assemble(dir, rho, par, tr, energy),
    {
        match dir {
            Dir::Axial => Conserved2d { rho, mom_r: tr, mom_x: par, energy },
            Dir::Radial => Conserved2d { rho, mom_r: par, mom_x: tr, energy },
        }
    }
}

/// The arithmetic that carries a transverse momentum through a solver of
/// one-dimensional Riemann problems.
pub trait Transverse: Acoustics {
    /// Transverse velocity from momentum and density.
    fn transverse_velocity(&self, mom: Self::Real, rho: Self::Real) -> Self::Real;

    /// Energy less the transverse kinetic energy.
    fn parallel_energy(&self, energy: Self::Real, mom: Self::Real, v: Self::Real) -> Self::Real;

    /// Transverse momentum carried by a mass flux.
    fn carried_momentum(&self, mass_flux: Self::Real, v: Self::Real) -> Self::Real;

    /// Energy flux with the transverse kinetic energy put back.
    fn carried_energy(&self, energy: Self::Real, v: Self::Real, mom: Self::Real) -> Self::Real;

    /// Whether a mass flux points up the line, or nowhere.
    fn flows_up(&self, mass_flux: Self::Real) -> bool;
}

/// `c` and `v` are the one-dimensional state and the transverse velocity of `u`.
pub open spec fn is_packed<K: Transverse>(
    k: K,
    u: Conserved2d<K::Real>,
    dir: Dir,
    c: Conserved<K::Real>,
    v: K::Real,
) -> bool {
    &&& c.rho == u.rho
    &&& c.mom == u.spec_parallel(dir)
    &&& call_ensures(K::transverse_velocity, (&k, u.spec_transverse(dir), u.rho), v)
    &&& call_ensures(K::parallel_energy, (&k, u.energy, u.spec_transverse(dir), v), c.energy)
}

/// `f` is the one-dimensional flux `c` with a transverse velocity `v` riding
/// along.
pub open spec fn is_unpacked<K: Transverse>(
    k: K,
    c: Conserved<K::Real>,
    v: K::Real,
    dir: Dir,
    f: Conserved2d<K::Real>,
) -> bool {
    &&& f.rho == c.rho
    &&& f.spec_parallel(dir) == c.mom
    &&& call_ensures(K::carried_momentum, (&k, c.rho, v), f.spec_transverse(dir))
    &&& call_ensures(K::carried_energy, (&k, c.energy, v, f.spec_transverse(dir)), f.energy)
}

/// Split a state into the one-dimensional state that a Riemann solver takes and
/// the transverse velocity that rides along.
pub fn pack<K: Transverse>(k: &K, u: Conserved2d<K::Real>, dir: Dir) -> (r: (
    Conserved<K::Real>,
    K::Real,
))
    ensures
        is_packed(*k, u, dir, r.0, r.1),
{
    let tr: K::Real = u.transverse(dir);
    let v: K::Real = k.transverse_velocity(tr, u.rho);
    let energy: K::Real = k.parallel_energy(u.energy, tr, v);
    (Conserved { rho: u.rho, mom: u.parallel(dir), energy }, v)
}

/// Put a directional flux together from the one-dimensional answer and the
/// transverse velocity.
pub fn unpack_flux<K: Transverse>(k: &K, c: Conserved<K::Real>, v: K::Real, dir: Dir) -> (f:
    Conserved2d<K::Real>)
    ensures
        is_unpacked(*k, c, v, dir, f),
{
    let mom: K::Real = k.carried_momentum(c.rho, v);
    let energy: K::Real = k.carried_energy(c.energy, v, mom);
    Conserved2d::assemble(dir, c.rho, c.mom, mom, energy)
}

/// Physical flux along a sweep.
pub fn dir_flux<K: Transverse>(k: &K, u: Conserved2d<K::Real>, dir: Dir) -> (f: Conserved2d<
    K::Real,
>)
    ensures
        exists|c: Conserved<K::Real>, v: K::Real, g: Conserved<K::Real>|
            {
                &&& #[trigger] is_packed(*k, u, dir, c, v)
                &&& #[trigger] call_ensures(K::flux, (k, c), g)
                &&& is_unpacked(*k, g, v, dir, f)
            },
{
    let (c, v) = pack(k, u, dir);
    let g: Conserved<K::Real> = k.flux(c);
    unpack_flux(k, g, v, dir)
}

/// `f` is the flux between two states: the one-dimensional flux of their packed
/// states, with the transverse velocity of the side that the mass comes from.
pub open spec fn is_dir_hllc<K: Transverse>(
    k: K,
    left: Conserved2d<K::Real>,
    right: Conserved2d<K::Real>,
    dir: Dir,
    f: Conserved2d<K::Real>,
) -> bool {
    exists|
        cl: Conserved<K::Real>,
        vl: K::Real,
        cr: Conserved<K::Real>,
        vr: K::Real,
        g: Conserved<K::Real>,
        up: bool,
    |
        {
            &&& #[trigger] is_packed(k, left, dir, cl, vl)
            &&& #[trigger] is_packed(k, right, dir, cr, vr)
            &&& #[trigger] is_hllc(k, cl, cr, g)
            &&& #[trigger] call_ensures(K::flows_up, (&k, g.rho), up)
            &&& is_unpacked(
                k,
                g,
                if up {
                    vl
                } else {
                    vr
                },
                dir,
                f,
            )
        }
}

/// Flux through an interface of a sweep, the transverse momentum carried from
/// the upwind side.
pub fn dir_hllc<K: Transverse>(
    k: &K,
    left: Conserved2d<K::Real>,
    right: Conserved2d<K::Real>,
    dir: Dir,
) -> (f: Conserved2d<K::Real>)
    ensures
        is_dir_hllc(*k, left, right, dir, f),
{
    let (cl, vl) = pack(k, left, dir);
    let (cr, vr) = pack(k, right, dir);
    let g: Conserved<K::Real> = hllc_flux(k, cl, cr);
    let up: bool = k.flows_up(g.rho);
    let v: K::Real = if up {
        vl
    } else {
        vr
    };
    unpack_flux(k, g, v, dir)
}

/// The areas of a cell's two interfaces and the cell's volume.
#[derive(Debug, Clone, Copy, PartialEq)]
pub struct Metric<R> {
    pub lower: R,
    pub upper: R,
    pub volume: R,
}

/// The reconstruction of one cell: its two half-step-evolved faces and the
/// half-step cell average.
#[derive(Debug, Clone, Copy, PartialEq)]
pub struct Faces<R> {
    pub left: Conserved2d<R>,
    pub right: Conserved2d<R>,
    pub centre: Conserved2d<R>,
}

/// The arithmetic of a two-dimensional finite-volume scheme on rings, over that of
/// the flow at its interfaces.
pub trait Scheme2d: Transverse {
    /// Whether both mesh spacings are positive and finite.
    fn spacing_is_valid(&self) -> bool;

    /// Whether the inner radius is below zero.
    fn starts_below_axis(&self) -> bool;

    /// Whether the inner radius is zero.
    fn starts_on_axis(&self) -> bool;

    /// Whether an initial state may enter the domain.
    fn admits(&self, w: Primitive2d<Self::Real>) -> bool;

    fn to_conserved(&self, w: Primitive2d<Self::Real>) -> Conserved2d<Self::Real>;

    fn to_primitive(&self, u: Conserved2d<Self::Real>) -> Primitive2d<Self::Real>;

    /// Whether density and pressure are positive and the velocities finite.
    fn is_physical(&self, u: Conserved2d<Self::Real>) -> bool;

    fn one(&self) -> Self::Real;

    fn negate(&self, a: Self::Real) -> Self::Real;

    /// Whether `x` is positive and finite.
    fn is_positive(&self, x: Self::Real) -> bool;

    /// Whether a source may act for `dt`: finite and not negative.
    fn is_source_interval(&self, dt: Self::Real) -> bool;

    /// The Courant number of a fresh domain, which is also the largest allowed.
    fn default_cfl(&self) -> Self::Real;

    fn cfl_is_valid(&self, cfl: Self::Real) -> bool;

    /// Signal speed of one cell along the radius.
    fn r_speed(&self, u: Conserved2d<Self::Real>) -> Self::Real;

    /// Signal speed of one cell along the axis.
    fn x_speed(&self, u: Conserved2d<Self::Real>) -> Self::Real;

    /// Crossing rate of the faster direction.
    fn crossing_rate(&self, r_speed: Self::Real, x_speed: Self::Real) -> Self::Real;

    /// Step for a Courant number and a crossing rate.
    fn courant_step(&self, cfl: Self::Real, rate: Self::Real) -> Self::Real;

    /// Whether `dt` is beyond the stable step, round-off apart.
    fn violates(&self, dt: Self::Real, limit: Self::Real) -> bool;

    /// Whether `t` is still short of `t_end`.
    fn is_before(&self, t: Self::Real, t_end: Self::Real) -> bool;

    /// `dt`, clipped so that a step from `t` does not pass `t_end`.
    fn clip(&self, dt: Self::Real, t: Self::Real, t_end: Self::Real) -> Self::Real;

    /// Centre radius of ring `j`.
    fn r_centre(&self, j: usize) -> Self::Real;

    /// Centre coordinate of axial cell `i`.
    fn x_centre(&self, i: usize) -> Self::Real;

    /// Axial spacing.
    fn dx(&self) -> Self::Real;

    /// Radius of interface `k` counted from the inner edge, continued past both
    /// edges.
    fn raw_radius(&self, k: isize) -> Self::Real;

    /// Whether a radius is inside the inner edge.
    fn is_inside_inner(&self, r: Self::Real) -> bool;

    /// Whether a radius is outside the outer edge of `n` rings.
    fn is_outside_outer(&self, n: usize, r: Self::Real) -> bool;

    /// A radius reflected about the inner edge.
    fn reflect_inner(&self, r: Self::Real) -> Self::Real;

    /// A radius reflected about the outer edge of `n` rings.
    fn reflect_outer(&self, n: usize, r: Self::Real) -> Self::Real;

    /// Volume of the annulus between two radii.
    fn annulus(&self, lo: Self::Real, hi: Self::Real) -> Self::Real;

    /// Share of a flux difference that acts on a cell of the given volume in half
    /// of `dt`.
    fn half_weight(&self, dt: Self::Real, volume: Self::Real) -> Self::Real;

    /// Share of a flux difference that acts on a cell of the given volume in `dt`.
    fn weight(&self, dt: Self::Real, volume: Self::Real) -> Self::Real;

    /// An energy density after a source of the given rate has acted for `dt`.
    fn heat(&self, dt: Self::Real, energy: Self::Real, rate: Self::Real) -> Self::Real;

    /// The cell after the geometric source alone has acted for `dt` at radius
    /// `r`.
    fn push_outward(
        &self,
        dt: Self::Real,
        cell: Conserved2d<Self::Real>,
        r: Self::Real,
    ) -> Conserved2d<Self::Real>;
}

/// Where in an update a state went bad.
#[derive(Debug, Clone, Copy, PartialEq, Eq, Structural)]
pub enum Stage2d {
    /// A half-step face of a sweep.
    HalfStep(Dir),
    /// The flux difference of a sweep.
    ConservativeUpdate(Dir),
    SplitGeometricSource,
    EnergySource,
}

impl Stage2d {
    /// The stage's name in a report.
    pub fn name(self) -> (s: &'static str)
        ensures
            s@ == (match self {
                Stage2d::HalfStep(Dir::Axial) => "x-sweep MUSCL half-step"@,
                Stage2d::HalfStep(Dir::Radial) => "r-sweep MUSCL half-step"@,
                Stage2d::ConservativeUpdate(Dir::Axial) => "x-sweep conservative update"@,
                Stage2d::ConservativeUpdate(Dir::Radial) => "r-sweep conservative update"@,
                Stage2d::SplitGeometricSource => "split geometric source"@,
                Stage2d::EnergySource => "energy source"@,
            }),
    {
        match self {
            Stage2d::HalfStep(Dir::Axial) => "x-sweep MUSCL half-step",
            Stage2d::HalfStep(Dir::Radial) => "r-sweep MUSCL half-step",
            Stage2d::ConservativeUpdate(Dir::Axial) => "x-sweep conservative update",
            Stage2d::ConservativeUpdate(Dir::Radial) => "r-sweep conservative update",
            Stage2d::SplitGeometricSource => "split geometric source",
            Stage2d::EnergySource => "energy source",
        }
    }
}

/// Why a domain could not be built or advanced.
#[derive(Debug, Clone, Copy, PartialEq, Eq, Structural)]
pub enum Euler2dError {
    /// Fewer cells in a direction than the stencil needs.
    TooFewCells { n_r: usize, n_x: usize },
    /// The number of initial states is not that of the mesh.
    WrongCount { states: usize },
    /// A mesh spacing is not positive and finite.
    BadSpacing,
    /// The inner radius is negative.
    NegativeRadius,
    /// An axisymmetric domain reaches the axis and does not say so.
    AxisNotDeclared { boundary: Boundary2d },
    /// The first initial state that is not physical.
    BadInitialState { ring: usize, column: usize },
    /// The Courant number is not in the allowed range.
    BadCfl,
    /// The step is not positive and finite.
    BadStep { step: usize },
    /// The source interval is negative or not finite.
    BadSourceInterval,
    /// The crossing rate is not positive and finite.
    NoWaveSpeed { step: usize },
    /// The step is longer than the stable one.
    CflViolation { step: usize },
    /// The first cell that a stage left non-physical.
    NonPhysical { stage: Stage2d, step: usize, j: usize, i: usize },
    /// The step counter is full.
    StepsExhausted,
}

/// What a domain is, mathematically: ring `j`, axial cell `i` is `cells[j][i]`.
pub struct Domain2d<K: Scheme2d> {
    pub scheme: K,
    pub geometry: Geometry,
    pub bc_r_min: Boundary2d,
    pub bc_r_max: Boundary2d,
    pub bc_x_min: Boundary2d,
    pub bc_x_max: Boundary2d,
    pub n_x: nat,
    pub cells: Seq<Seq<Conserved2d<K::Real>>>,
    /// Areas of the radial interfaces, ghosts included.
    pub areas: Seq<K::Real>,
    /// Volumes of the rings, ghosts included.
    pub volumes: Seq<K::Real>,
    pub cfl: K::Real,
    pub time: K::Real,
    pub steps: nat,
    /// Energy that has left through transmissive edges.
    pub escaped: K::Real,
}

impl<K: Scheme2d> Domain2d<K> {
    pub open spec fn valid(self) -> bool {
        &&& 2 * N_GHOST <= self.cells.len()
        &&& 2 * N_GHOST <= self.n_x
        &&& self.cells.len() + 2 * N_GHOST + 1 <= isize::MAX
        &&& self.n_x + 2 * N_GHOST + 1 <= isize::MAX
        &&& self.areas.len() == self.cells.len() + 2 * N_GHOST + 1
        &&& self.volumes.len() == self.cells.len() + 2 * N_GHOST
        &&& self.steps <= usize::MAX
        &&& forall|j: int| 0 <= j < self.cells.len() ==> #[trigger] self.cells[j].len() == self.n_x
    }
}

/// `v` is the mirror image of `u`: with the flip, the momentum along the sweep
/// is negated and nothing else changes.
pub open spec fn is_mirror<K: Scheme2d>(
    scheme: K,
    dir: Dir,
    flips: bool,
    u: Conserved2d<K::Real>,
    v: Conserved2d<K::Real>,
) -> bool {
    if flips {
        &&& v == Conserved2d::spec_assemble(
            dir,
            u.rho,
            v.spec_parallel(dir),
            u.spec_transverse(dir),
            u.energy,
        )
        &&& call_ensures(K::negate, (&scheme, u.spec_parallel(dir)), v.spec_parallel(dir))
    } else {
        v == u
    }
}

/// `padded` is `line` with its ghosts: beyond a mirroring edge the mirror image
/// of the cell as far inside, beyond a transmissive one a copy of the edge cell.
pub open spec fn is_padded<K: Scheme2d>(
    scheme: K,
    line: Seq<Conserved2d<K::Real>>,
    dir: Dir,
    lo: Boundary2d,
    hi: Boundary2d,
    flips: bool,
    padded: Seq<Conserved2d<K::Real>>,
) -> bool {
    let n = line.len() as int;
    &&& padded.len() == n + 2 * N_GHOST
    &&& padded.subrange(N_GHOST as int, N_GHOST + n) == line
    &&& forall|g: int|
        0 <= g < N_GHOST ==> if lo.spec_mirrors() {
            is_mirror(scheme, dir, flips, line[N_GHOST - 1 - g], #[trigger] padded[g])
        } else {
            padded[g] == line[0]
        }
    &&& forall|k: int|
        N_GHOST + n <= k < padded.len() ==> if hi.spec_mirrors() {
            is_mirror(scheme, dir, flips, line[2 * n + N_GHOST - 1 - k], #[trigger] padded[k])
        } else {
            padded[k] == line[n - 1]
        }
}

/// The metric of padded cell `k`.
pub open spec fn metric_at<R>(areas: Seq<R>, volumes: Seq<R>, k: int) -> Metric<R> {
    Metric { lower: areas[k], upper: areas[k + 1], volume: volumes[k] }
}

/// The reconstruction of a cell over half of `dt`, from its two neighbours and its
/// metric.
pub open spec fn are_cell_faces<K: Scheme2d>(
    scheme: K,
    dir: Dir,
    dt: K::Real,
    before: Conserved2d<K::Real>,
    cell: Conserved2d<K::Real>,
    after: Conserved2d<K::Real>,
    metric: Metric<K::Real>,
    geometric: bool,
    faces: Faces<K::Real>,
) -> bool {
    exists|half: K::Real| #[trigger]
        call_ensures(K::half_weight, (&scheme, dt, metric.volume), half) && are_weighted_faces(
            scheme,
            half,
            dir,
            before,
            cell,
            after,
            metric,
            geometric,
            faces,
        )
}

/// The reconstruction of a cell over half of `dt`; `geometric` asks for the
/// geometric source.
pub fn cell_faces<K: Scheme2d>(
    scheme: &K,
    dir: Dir,
    dt: K::Real,
    before: Conserved2d<K::Real>,
    cell: Conserved2d<K::Real>,
    after: Conserved2d<K::Real>,
    metric: Metric<K::Real>,
    geometric: bool,
) -> (faces: Faces<K::Real>)
    ensures
        are_cell_faces(*scheme, dir, dt, before, cell, after, metric, geometric, faces),
{
    let half: K::Real = scheme.half_weight(dt, metric.volume);
    weighted_faces(scheme, half, dir, before, cell, after, metric, geometric)
}

/// `v` is the cell `u` after `dt`, given the fluxes through its two interfaces, its
/// metric and, for the geometric source, its half-step average.
pub open spec fn is_advanced<K: Scheme2d>(
    scheme: K,
    dir: Dir,
    dt: K::Real,
    u: Conserved2d<K::Real>,
    flux_lo: Conserved2d<K::Real>,
    flux_hi: Conserved2d<K::Real>,
    metric: Metric<K::Real>,
    geometric: bool,
    centre: Conserved2d<K::Real>,
    v: Conserved2d<K::Real>,
) -> bool {
    exists|weight: K::Real| #[trigger]
        call_ensures(K::weight, (&scheme, dt, metric.volume), weight) && is_weighted_update(
            scheme,
            weight,
            dir,
            u,
            flux_lo,
            flux_hi,
            metric,
            geometric,
            centre,
            v,
        )
}

/// A cell after `dt`, given the fluxes through its two interfaces.
pub fn advanced<K: Scheme2d>(
    scheme: &K,
    dir: Dir,
    dt: K::Real,
    u: Conserved2d<K::Real>,
    flux_lo: Conserved2d<K::Real>,
    flux_hi: Conserved2d<K::Real>,
    metric: Metric<K::Real>,
    geometric: bool,
    centre: Conserved2d<K::Real>,
) -> (v: Conserved2d<K::Real>)
    ensures
        is_advanced(*scheme, dir, dt, u, flux_lo, flux_hi, metric, geometric, centre, v),
{
    let weight: K::Real = scheme.weight(dt, metric.volume);
    weighted_update(scheme, weight, dir, u, flux_lo, flux_hi, metric, geometric, centre)
}

/// `q` is the energy that a flux carries through an interface of an area in `dt`.
pub open spec fn is_carried<K: Scheme2d>(
    scheme: K,
    flux: Conserved2d<K::Real>,
    area: K::Real,
    dt: K::Real,
    q: K::Real,
) -> bool {
    exists|rate: K::Real| #[trigger]
        call_ensures(K::times, (&scheme, flux.energy, area), rate) && call_ensures(
            K::times,
            (&scheme, rate, dt),
            q,
        )
}

/// Energy that a flux carries through an interface in `dt`.
fn carried<K: Scheme2d>(scheme: &K, flux: Conserved2d<K::Real>, area: K::Real, dt: K::Real) -> (q:
    K::Real)
    ensures
        is_carried(*scheme, flux, area, dt, q),
{
    let rate: K::Real = scheme.times(flux.energy, area);
    scheme.times(rate, dt)
}

/// The line that a sweep works on, and how.
pub struct Sweep<K: Scheme2d> {
    pub scheme: K,
    pub line: Seq<Conserved2d<K::Real>>,
    pub dt: K::Real,
    pub dir: Dir,
    pub lo: Boundary2d,
    pub hi: Boundary2d,
    pub areas: Seq<K::Real>,
    pub volumes: Seq<K::Real>,
    pub geometric: bool,
    pub flips: bool,
    /// The ring (axial sweep) or column (radial sweep) that the line is.
    pub fixed: nat,
    pub steps: nat,
}

impl<K: Scheme2d> Sweep<K> {
    pub open spec fn valid(self) -> bool {
        &&& 2 * N_GHOST <= self.line.len()
        &&& self.line.len() + 2 * N_GHOST + 1 <= isize::MAX
        &&& self.areas.len() == self.line.len() + 2 * N_GHOST + 1
        &&& self.volumes.len() == self.line.len() + 2 * N_GHOST
    }

    /// `faces[m]` is the reconstruction of cell `m + 1` of the padded line.
    pub open spec fn are_faces(
        self,
        padded: Seq<Conserved2d<K::Real>>,
        faces: Seq<Faces<K::Real>>,
    ) -> bool {
        &&& is_padded(self.scheme, self.line, self.dir, self.lo, self.hi, self.flips, padded)
        &&& faces.len() == self.line.len() + 2
        &&& forall|m: int|
            0 <= m < faces.len() ==> are_cell_faces(
                self.scheme,
                self.dir,
                self.dt,
                padded[m],
                padded[m + 1],
                padded[m + 2],
                metric_at(self.areas, self.volumes, m + 1),
                self.geometric,
                #[trigger] faces[m],
            )
    }

    /// `fluxes[j]` goes through the interface between faces `j` and `j + 1`.
    pub open spec fn are_fluxes(
        self,
        faces: Seq<Faces<K::Real>>,
        fluxes: Seq<Conserved2d<K::Real>>,
    ) -> bool {
        &&& fluxes.len() == self.line.len() + 1
        &&& forall|j: int|
            0 <= j < fluxes.len() ==> is_dir_hllc(
                self.scheme,
                faces[j].right,
                faces[j + 1].left,
                self.dir,
                #[trigger] fluxes[j],
            )
    }

    pub open spec fn is_update(
        self,
        faces: Seq<Faces<K::Real>>,
        fluxes: Seq<Conserved2d<K::Real>>,
        updated: Seq<Conserved2d<K::Real>>,
    ) -> bool {
        &&& updated.len() == self.line.len()
        &&& forall|i: int|
            0 <= i < updated.len() ==> is_advanced(
                self.scheme,
                self.dir,
                self.dt,
                self.line[i],
                fluxes[i],
                fluxes[i + 1],
                metric_at(self.areas, self.volumes, N_GHOST + i),
                self.geometric,
                faces[i + 1].centre,
                #[trigger] updated[i],
            )
    }

    /// Energy through the two ends: out of the upper and into the lower, at the
    /// transmissive ones.
    pub open spec fn is_escaped(self, fluxes: Seq<Conserved2d<K::Real>>, escaped: K::Real) -> bool {
        let n = self.line.len() as int;
        exists|zero: K::Real, low: K::Real|
            {
                &&& #[trigger] call_ensures(K::zero, (&self.scheme,), zero)
                &&& #[trigger] is_leak(
                    self,
                    self.lo,
                    zero,
                    fluxes[0],
                    self.areas[N_GHOST as int],
                    false,
                    low,
                )
                &&& is_leak(
                    self,
                    self.hi,
                    low,
                    fluxes[n],
                    self.areas[N_GHOST + n],
                    true,
                    escaped,
                )
            }
    }

    /// Where position `k` of the line is in the domain.
    pub open spec fn located(self, k: int) -> (int, int) {
        match self.dir {
            Dir::Axial => (self.fixed as int, k),
            Dir::Radial => (k, self.fixed as int),
        }
    }

    pub open spec fn names_cell(self, e: Euler2dError, stage: Stage2d, k: int) -> bool {
        e matches Euler2dError::NonPhysical { stage: s, step, j, i } && s == stage && step
            == self.steps && (j as int, i as int) == self.located(k)
    }

    /// What a sweep over the line may return.
    pub open spec fn is_outcome(
        self,
        padded: Seq<Conserved2d<K::Real>>,
        faces: Seq<Faces<K::Real>>,
        r: Result<(Seq<Conserved2d<K::Real>>, K::Real), Euler2dError>,
    ) -> bool {
        let left = left_faces(faces);
        let right = right_faces(faces);
        let half_step = Stage2d::HalfStep(self.dir);
        &&& self.are_faces(padded, faces)
        &&& match r {
            Ok((updated, escaped)) => {
                &&& all_physical(self.scheme, left)
                &&& all_physical(self.scheme, right)
                &&& all_physical(self.scheme, updated)
                &&& exists|fluxes: Seq<Conserved2d<K::Real>>|
                    {
                        &&& #[trigger] self.are_fluxes(faces, fluxes)
                        &&& self.is_update(faces, fluxes, updated)
                        &&& self.is_escaped(fluxes, escaped)
                    }
            },
            Err(e) => {
                ||| exists|k: int|
                    #[trigger] first_bad(self.scheme, left, k) && self.names_cell(
                        e,
                        half_step,
                        before(k),
                    )
                ||| {
                    &&& all_physical(self.scheme, left)
                    &&& exists|k: int|
                        #[trigger] first_bad(self.scheme, right, k) && self.names_cell(
                            e,
                            half_step,
                            before(k),
                        )
                }
                ||| {
                    &&& all_physical(self.scheme, left)
                    &&& all_physical(self.scheme, right)
                    &&& exists|
                        fluxes: Seq<Conserved2d<K::Real>>,
                        updated: Seq<Conserved2d<K::Real>>,
                        k: int,
                    |
                        {
                            &&& #[trigger] self.are_fluxes(faces, fluxes)
                            &&& self.is_update(faces, fluxes, updated)
                            &&& #[trigger] first_bad(self.scheme, updated, k)
                            &&& self.names_cell(e, Stage2d::ConservativeUpdate(self.dir), k)
                        }
                }
            },
        }
    }
}

/// `after` is `before` with the energy through one interface added (outwards)
/// or taken off, if the edge is transmissive.
pub open spec fn is_leak<K: Scheme2d>(
    sweep: Sweep<K>,
    edge: Boundary2d,
    before: K::Real,
    flux: Conserved2d<K::Real>,
    area: K::Real,
    outwards: bool,
    after: K::Real,
) -> bool {
    if edge == Boundary2d::Transmissive {
        exists|q: K::Real|
            {
                &&& #[trigger] is_carried(sweep.scheme, flux, area, sweep.dt, q)
                &&& if outwards {
                    call_ensures(K::plus, (&sweep.scheme, before, q), after)
                } else {
                    call_ensures(K::minus, (&sweep.scheme, before, q), after)
                }
            }
    } else {
        after == before
    }
}

/// One place down a line, and no lower than its start.
pub open spec fn before(k: int) -> int {
    if k > 0 {
        k - 1
    } else {
        0
    }
}

pub open spec fn left_faces<R>(faces: Seq<Faces<R>>) -> Seq<Conserved2d<R>> {
    Seq::new(faces.len(), |m: int| faces[m].left)
}

pub open spec fn right_faces<R>(faces: Seq<Faces<R>>) -> Seq<Conserved2d<R>> {
    Seq::new(faces.len(), |m: int| faces[m].right)
}

/// Every state was found physical.
pub open spec fn all_physical<K: Scheme2d>(scheme: K, cells: Seq<Conserved2d<K::Real>>) -> bool {
    forall|k: int|
        0 <= k < cells.len() ==> call_ensures(K::is_physical, (&scheme, #[trigger] cells[k]), true)
}

/// State `k` is the first that was found non-physical.
pub open spec fn first_bad<K: Scheme2d>(scheme: K, cells: Seq<Conserved2d<K::Real>>, k: int) -> bool {
    &&& 0 <= k < cells.len()
    &&& call_ensures(K::is_physical, (&scheme, cells[k]), false)
    &&& all_physical(scheme, cells.subrange(0, k))
}

/// The first non-physical state of a line, if there is one.
pub fn find_bad<K: Scheme2d>(scheme: &K, cells: &[Conserved2d<K::Real>]) -> (r: Option<usize>)
    ensures
        match r {
            None => all_physical(*scheme, cells@),
            Some(k) => first_bad(*scheme, cells@, k as int),
        },
{
    for k in 0..cells.len()
        invariant
            all_physical(*scheme, cells@.subrange(0, k as int)),
    {
        if !scheme.is_physical(cells[k]) {
            return Some(k);
        }
        proof {
            let longer = cells@.subrange(0, k + 1);
            assert forall|j: int| 0 <= j < longer.len() implies call_ensures(
                K::is_physical,
                (scheme, #[trigger] longer[j]),
                true,
            ) by {
                if j < k {
                    assert(longer[j] == cells@.subrange(0, k as int)[j]);
                }
            }
        }
    }
    proof {
        assert(cells@.subrange(0, cells@.len() as int) =~= cells@);
    }
    None
}

/// The mirror image of a state; with `flips`, the momentum along the sweep is
/// reversed.
pub fn mirror<K: Scheme2d>(scheme: &K, u: Conserved2d<K::Real>, dir: Dir, flips: bool) -> (v:
    Conserved2d<K::Real>)
    ensures
        is_mirror(*scheme, dir, flips, u, v),
{
    if !flips {
        return u;
    }
    let reversed: K::Real = scheme.negate(u.parallel(dir));
    Conserved2d::assemble(dir, u.rho, reversed, u.transverse(dir), u.energy)
}

/// Pad a line of states with [`N_GHOST`] ghosts per side.
pub fn pad_line<K: Scheme2d>(
    scheme: &K,
    line: &[Conserved2d<K::Real>],
    dir: Dir,
    lo: Boundary2d,
    hi: Boundary2d,
    flips: bool,
) -> (padded: Vec<Conserved2d<K::Real>>)
    requires
        N_GHOST <= line@.len(),
        line@.len() + 2 * N_GHOST <= usize::MAX,
    ensures
        is_padded(*scheme, line@, dir, lo, hi, flips, padded@),
{
    let n: usize = line.len();
    let mut padded: Vec<Conserved2d<K::Real>> = Vec::with_capacity(n + 2 * N_GHOST);
    for g in 0..N_GHOST
        invariant
            n == line@.len(),
            N_GHOST <= n,
            padded@.len() == g,
            forall|k: int|
                0 <= k < g ==> if lo.spec_mirrors() {
                    is_mirror(*scheme, dir, flips, line@[N_GHOST - 1 - k], #[trigger] padded@[k])
                } else {
                    padded@[k] == line@[0]
                },
    {
        let u: Conserved2d<K::Real> = if lo.mirrors() {
            mirror(scheme, line[N_GHOST - 1 - g], dir, flips)
        } else {
            line[0]
        };
        padded.push(u);
    }
    let ghost low = padded@;
    for i in 0..n
        invariant
            n == line@.len(),
            low.len() == N_GHOST,
            padded@ == low + line@.subrange(0, i as int),
    {
        padded.push(line[i]);
        proof {
            assert(line@.subrange(0, i + 1) =~= line@.subrange(0, i as int).push(line@[i as int]));
            assert(padded@ =~= low + line@.subrange(0, i + 1));
        }
    }
    let ghost inner = padded@;
    proof {
        assert(line@.subrange(0, n as int) =~= line@);
        assert(inner == low + line@);
    }
    for g in 0..N_GHOST
        invariant
            n == line@.len(),
            N_GHOST <= n,
            low.len() == N_GHOST,
            inner == low + line@,
            padded@.len() == N_GHOST + n + g,
            padded@.subrange(0, N_GHOST + n) == inner,
            forall|k: int|
                N_GHOST + n <= k < N_GHOST + n + g ==> if hi.spec_mirrors() {
                    is_mirror(
                        *scheme,
                        dir,
                        flips,
                        line@[2 * n + N_GHOST - 1 - k],
                        #[trigger] padded@[k],
                    )
                } else {
                    padded@[k] == line@[n - 1]
                },
    {
        let u: Conserved2d<K::Real> = if hi.mirrors() {
            mirror(scheme, line[n - 1 - g], dir, flips)
        } else {
            line[n - 1]
        };
        let ghost shorter = padded@;
        padded.push(u);
        proof {
            assert(padded@.subrange(0, N_GHOST + n) =~= inner) by {
                assert(shorter.subrange(0, N_GHOST + n) =~= inner);
            }
            assert(padded@[N_GHOST + n + g] == u);
        }
    }
    proof {
        assert(padded@.subrange(N_GHOST as int, N_GHOST + n) =~= line@) by {
            assert forall|i: int| 0 <= i < n implies padded@[N_GHOST + i] == line@[i] by {
                assert(padded@.subrange(0, N_GHOST + n)[N_GHOST + i] == inner[N_GHOST + i]);
            }
        }
        assert forall|g: int| 0 <= g < N_GHOST implies if lo.spec_mirrors() {
            is_mirror(*scheme, dir, flips, line@[N_GHOST - 1 - g], #[trigger] padded@[g])
        } else {
            padded@[g] == line@[0]
        } by {
            assert(padded@.subrange(0, N_GHOST + n)[g] == inner[g]);
            assert(padded@[g] == low[g]);
        }
    }
    padded
}

/// A sweep's result by the view of its line.
pub open spec fn line_view<K: Scheme2d>(
    r: Result<(Vec<Conserved2d<K::Real>>, K::Real), Euler2dError>,
) -> Result<(Seq<Conserved2d<K::Real>>, K::Real), Euler2dError> {
    match r {
        Ok((line, escaped)) => Ok((line@, escaped)),
        Err(e) => Err(e),
    }
}

/// Where position `k` of a line is in the domain.
fn locate(dir: Dir, fixed: usize, k: usize) -> (p: (usize, usize))
    ensures
        p == (match dir {
            Dir::Axial => (fixed, k),
            Dir::Radial => (k, fixed),
        }),
{
    match dir {
        Dir::Axial => (fixed, k),
        Dir::Radial => (k, fixed),
    }
}

fn refuse(stage: Stage2d, step: usize, dir: Dir, fixed: usize, k: usize) -> (e: Euler2dError)
    ensures
        e matches Euler2dError::NonPhysical { stage: s, step: n, j, i } && s == stage && n == step
            && (j, i) == (match dir {
            Dir::Axial => (fixed, k),
            Dir::Radial => (k, fixed),
        }),
{
    let (j, i) = locate(dir, fixed, k);
    Euler2dError::NonPhysical { stage, step, j, i }
}

/// One MUSCL-Hancock sweep over a single line of cells. `areas` and `volumes`
/// are those of the padded line; `fixed` is the ring or column that the line
/// is. Returns the updated line and the energy through its transmissive ends.
pub fn sweep_line<K: Scheme2d>(
    scheme: &K,
    line: &[Conserved2d<K::Real>],
    dt: K::Real,
    dir: Dir,
    lo: Boundary2d,
    hi: Boundary2d,
    areas: &[K::Real],
    volumes: &[K::Real],
    geometric: bool,
    flips: bool,
    fixed: usize,
    step: usize,
) -> (r: Result<(Vec<Conserved2d<K::Real>>, K::Real), Euler2dError>)
    requires
        2 * N_GHOST <= line@.len(),
        line@.len() + 2 * N_GHOST + 1 <= isize::MAX,
        areas@.len() == line@.len() + 2 * N_GHOST + 1,
        volumes@.len() == line@.len() + 2 * N_GHOST,
    ensures
        exists|padded: Seq<Conserved2d<K::Real>>, faces: Seq<Faces<K::Real>>|
            #[trigger] (Sweep {
                scheme: *scheme,
                line: line@,
                dt,
                dir,
                lo,
                hi,
                areas: areas@,
                volumes: volumes@,
                geometric,
                flips,
                fixed: fixed as nat,
                steps: step as nat,
            }).is_outcome(padded, faces, line_view::<K>(r)),
        r matches Ok((updated, _)) ==> updated@.len() == line@.len(),
{
    let ghost sweep = Sweep {
        scheme: *scheme,
        line: line@,
        dt,
        dir,
        lo,
        hi,
        areas: areas@,
        volumes: volumes@,
        geometric,
        flips,
        fixed: fixed as nat,
        steps: step as nat,
    };
    let n: usize = line.len();
    let padded: Vec<Conserved2d<K::Real>> = pad_line(scheme, line, dir, lo, hi, flips);
    let mut left: Vec<Conserved2d<K::Real>> = Vec::with_capacity(n + 2);
    let mut right: Vec<Conserved2d<K::Real>> = Vec::with_capacity(n + 2);
    let mut centre: Vec<Conserved2d<K::Real>> = Vec::with_capacity(n + 2);
    let ghost mut faces: Seq<Faces<K::Real>> = Seq::empty();
    for m in 0..n + 2
        invariant
            n == line@.len(),
            n + 5 <= isize::MAX,
            padded@.len() == n + 4,
            areas@.len() == n + 5,
            volumes@.len() == n + 4,
            sweep.scheme == *scheme,
            sweep.dt == dt,
            sweep.dir == dir,
            sweep.areas == areas@,
            sweep.volumes == volumes@,
            sweep.geometric == geometric,
            faces.len() == m,
            left@ == left_faces(faces),
            right@ == right_faces(faces),
            centre@ == centres(faces),
            forall|k: int|
                0 <= k < m ==> are_cell_faces(
                    sweep.scheme,
                    sweep.dir,
                    sweep.dt,
                    padded@[k],
                    padded@[k + 1],
                    padded@[k + 2],
                    metric_at(sweep.areas, sweep.volumes, k + 1),
                    sweep.geometric,
                    #[trigger] faces[k],
                ),
    {
        let metric: Metric<K::Real> = Metric {
            lower: areas[m + 1],
            upper: areas[m + 2],
            volume: volumes[m + 1],
        };
        let f: Faces<K::Real> = cell_faces(
            scheme,
            dir,
            dt,
            padded[m],
            padded[m + 1],
            padded[m + 2],
            metric,
            geometric,
        );
        left.push(f.left);
        right.push(f.right);
        centre.push(f.centre);
        proof {
            assert(metric == metric_at(sweep.areas, sweep.volumes, m + 1));
            faces = faces.push(f);
            assert(left@ =~= left_faces(faces));
            assert(right@ =~= right_faces(faces));
            assert(centre@ =~= centres(faces));
        }
    }
    proof {
        assert(sweep.are_faces(padded@, faces));
    }
    match find_bad(scheme, left.as_slice()) {
        Some(k) => {
            let e: Euler2dError = refuse(
                Stage2d::HalfStep(dir),
                step,
                dir,
                fixed,
                k.saturating_sub(1),
            );
            proof {
                assert(sweep.names_cell(e, Stage2d::HalfStep(dir), before(k as int)));
                assert(sweep.is_outcome(padded@, faces, Err(e)));
            }
            return Err(e);
        },
        None => {},
    }
    match find_bad(scheme, right.as_slice()) {
        Some(k) => {
            let e: Euler2dError = refuse(
                Stage2d::HalfStep(dir),
                step,
                dir,
                fixed,
                k.saturating_sub(1),
            );
            proof {
                assert(sweep.names_cell(e, Stage2d::HalfStep(dir), before(k as int)));
                assert(sweep.is_outcome(padded@, faces, Err(e)));
            }
            return Err(e);
        },
        None => {},
    }
    let mut fluxes: Vec<Conserved2d<K::Real>> = Vec::with_capacity(n + 1);
    for j in 0..n + 1
        invariant
            n + 5 <= isize::MAX,
            faces.len() == n + 2,
            left@ == left_faces(faces),
            right@ == right_faces(faces),
            sweep.scheme == *scheme,
            sweep.dir == dir,
            fluxes@.len() == j,
            forall|k: int|
                0 <= k < j ==> is_dir_hllc(
                    sweep.scheme,
                    faces[k].right,
                    faces[k + 1].left,
                    sweep.dir,
                    #[trigger] fluxes@[k],
                ),
    {
        let f: Conserved2d<K::Real> = dir_hllc(scheme, right[j], left[j + 1], dir);
        fluxes.push(f);
    }
    proof {
        assert(sweep.are_fluxes(faces, fluxes@));
    }
    let zero: K::Real = scheme.zero();
    let low: K::Real = if lo == Boundary2d::Transmissive {
        let q: K::Real = carried(scheme, fluxes[0], areas[N_GHOST], dt);
        scheme.minus(zero, q)
    } else {
        zero
    };
    let escaped: K::Real = if hi == Boundary2d::Transmissive {
        let q: K::Real = carried(scheme, fluxes[n], areas[N_GHOST + n], dt);
        scheme.plus(low, q)
    } else {
        low
    };
    proof {
        assert(is_leak(sweep, sweep.lo, zero, fluxes@[0], sweep.areas[N_GHOST as int], false, low));
        assert(sweep.is_escaped(fluxes@, escaped));
    }
    let mut updated: Vec<Conserved2d<K::Real>> = Vec::with_capacity(n);
    for i in 0..n
        invariant
            n == line@.len(),
            n + 5 <= isize::MAX,
            faces.len() == n + 2,
            centre@ == centres(faces),
            fluxes@.len() == n + 1,
            areas@.len() == n + 5,
            volumes@.len() == n + 4,
            sweep.scheme == *scheme,
            sweep.line == line@,
            sweep.dt == dt,
            sweep.dir == dir,
            sweep.areas == areas@,
            sweep.volumes == volumes@,
            sweep.geometric == geometric,
            updated@.len() == i,
            forall|k: int|
                0 <= k < i ==> is_advanced(
                    sweep.scheme,
                    sweep.dir,
                    sweep.dt,
                    sweep.line[k],
                    fluxes@[k],
                    fluxes@[k + 1],
                    metric_at(sweep.areas, sweep.volumes, N_GHOST + k),
                    sweep.geometric,
                    faces[k + 1].centre,
                    #[trigger] updated@[k],
                ),
    {
        let metric: Metric<K::Real> = Metric {
            lower: areas[N_GHOST + i],
            upper: areas[N_GHOST + i + 1],
            volume: volumes[N_GHOST + i],
        };
        let u: Conserved2d<K::Real> = advanced(
            scheme,
            dir,
            dt,
            line[i],
            fluxes[i],
            fluxes[i + 1],
            metric,
            geometric,
            centre[i + 1],
        );
        proof {
            assert(metric == metric_at(sweep.areas, sweep.volumes, N_GHOST + i));
            assert(centre@[i + 1] == faces[i + 1].centre);
        }
        updated.push(u);
    }
    proof {
        assert(sweep.is_update(faces, fluxes@, updated@));
    }
    match find_bad(scheme, updated.as_slice()) {
        Some(k) => {
            let e: Euler2dError = refuse(Stage2d::ConservativeUpdate(dir), step, dir, fixed, k);
            proof {
                assert(sweep.names_cell(e, Stage2d::ConservativeUpdate(dir), k as int));
                assert(sweep.is_outcome(padded@, faces, Err(e)));
            }
            return Err(e);
        },
        None => {},
    }
    proof {
        assert(sweep.is_outcome(padded@, faces, Ok((updated@, escaped))));
    }
    Ok((updated, escaped))
}

pub open spec fn centres<R>(faces: Seq<Faces<R>>) -> Seq<Conserved2d<R>> {
    Seq::new(faces.len(), |m: int| faces[m].centre)
}

/// `r` is the radius of interface `m` counted from the inner edge. Beyond a
/// mirroring edge the radius is reflected about that edge, not continued.
pub open spec fn is_face_radius<K: Scheme2d>(
    scheme: K,
    n: usize,
    lo: Boundary2d,
    hi: Boundary2d,
    m: int,
    r: K::Real,
) -> bool {
    exists|raw: K::Real|
        #[trigger] call_ensures(K::raw_radius, (&scheme, m as isize), raw) && is_reflected(
            scheme,
            n,
            lo,
            hi,
            raw,
            r,
        )
}

/// `r` is `raw`, reflected about a mirroring edge that it is beyond.
pub open spec fn is_reflected<K: Scheme2d>(
    scheme: K,
    n: usize,
    lo: Boundary2d,
    hi: Boundary2d,
    raw: K::Real,
    r: K::Real,
) -> bool {
    let inner = lo.spec_mirrors() && call_ensures(K::is_inside_inner, (&scheme, raw), true);
    let kept = !lo.spec_mirrors() || call_ensures(K::is_inside_inner, (&scheme, raw), false);
    let outer = hi.spec_mirrors() && call_ensures(K::is_outside_outer, (&scheme, n, raw), true);
    let within = !hi.spec_mirrors() || call_ensures(K::is_outside_outer, (&scheme, n, raw), false);
    ||| inner && call_ensures(K::reflect_inner, (&scheme, raw), r)
    ||| kept && outer && call_ensures(K::reflect_outer, (&scheme, n, raw), r)
    ||| kept && within && r == raw
}

/// `area` is that of the radial interface at `r`: one in a slab, the radius
/// between annuli, so that nothing crosses the axis.
pub open spec fn is_face_area<K: Scheme2d>(
    scheme: K,
    geometry: Geometry,
    r: K::Real,
    area: K::Real,
) -> bool {
    match geometry {
        Geometry::Planar => call_ensures(K::one, (&scheme,), area),
        Geometry::Axisymmetric => area == r,
    }
}

/// `volume` is that of the ring between two radii.
pub open spec fn is_cell_volume<K: Scheme2d>(
    scheme: K,
    geometry: Geometry,
    lo: K::Real,
    hi: K::Real,
    volume: K::Real,
) -> bool {
    match geometry {
        Geometry::Planar => call_ensures(K::minus, (&scheme, hi, lo), volume),
        Geometry::Axisymmetric => call_ensures(K::annulus, (&scheme, lo, hi), volume),
    }
}

/// `area` is that of interface `k` of the padded rings.
pub open spec fn is_padded_area<K: Scheme2d>(
    scheme: K,
    geometry: Geometry,
    n: usize,
    lo: Boundary2d,
    hi: Boundary2d,
    k: int,
    area: K::Real,
) -> bool {
    exists|r: K::Real| #[trigger]
        is_face_radius(scheme, n, lo, hi, k - N_GHOST, r) && is_face_area(scheme, geometry, r, area)
}

/// `volume` is that of padded ring `k`.
pub open spec fn is_padded_volume<K: Scheme2d>(
    scheme: K,
    geometry: Geometry,
    n: usize,
    lo: Boundary2d,
    hi: Boundary2d,
    k: int,
    volume: K::Real,
) -> bool {
    exists|a: K::Real, b: K::Real, small: K::Real, large: K::Real|
        {
            &&& is_face_radius(scheme, n, lo, hi, k - N_GHOST, a)
            &&& is_face_radius(scheme, n, lo, hi, k + 1 - N_GHOST, b)
            &&& #[trigger] call_ensures(K::smaller, (&scheme, a, b), small)
            &&& #[trigger] call_ensures(K::larger, (&scheme, a, b), large)
            &&& is_cell_volume(scheme, geometry, small, large, volume)
        }
}

impl Geometry {
    /// Area of the radial interface at `r`, in units of the planar one.
    pub fn face_area<K: Scheme2d>(self, scheme: &K, r: K::Real) -> (area: K::Real)
        ensures
            is_face_area(*scheme, self, r, area),
    {
        match self {
            Geometry::Planar => scheme.one(),
            Geometry::Axisymmetric => r,
        }
    }

    /// Volume of the ring between two radii.
    pub fn cell_volume<K: Scheme2d>(self, scheme: &K, lo: K::Real, hi: K::Real) -> (volume: K::Real)
        ensures
            is_cell_volume(*scheme, self, lo, hi, volume),
    {
        match self {
            Geometry::Planar => scheme.minus(hi, lo),
            Geometry::Axisymmetric => scheme.annulus(lo, hi),
        }
    }
}

/// Radius of a radial interface, ghost interfaces reflected about a mirroring
/// edge. A wall is tight only where the ghosts' metric mirrors as well.
pub fn ghost_face_radius<K: Scheme2d>(
    scheme: &K,
    n: usize,
    raw: K::Real,
    lo: Boundary2d,
    hi: Boundary2d,
) -> (r: K::Real)
    ensures
        is_reflected(*scheme, n, lo, hi, raw, r),
{
    if lo.mirrors() {
        if scheme.is_inside_inner(raw) {
            return scheme.reflect_inner(raw);
        }
    }
    if hi.mirrors() {
        if scheme.is_outside_outer(n, raw) {
            return scheme.reflect_outer(n, raw);
        }
    }
    raw
}

fn face_radius<K: Scheme2d>(scheme: &K, n: usize, lo: Boundary2d, hi: Boundary2d, m: isize) -> (r:
    K::Real)
    ensures
        is_face_radius(*scheme, n, lo, hi, m as int, r),
{
    let raw: K::Real = scheme.raw_radius(m);
    ghost_face_radius(scheme, n, raw, lo, hi)
}

/// A two-dimensional domain and its state.
pub struct Euler2d<K: Scheme2d> {
    scheme: K,
    geometry: Geometry,
    bc_r_min: Boundary2d,
    bc_r_max: Boundary2d,
    bc_x_min: Boundary2d,
    bc_x_max: Boundary2d,
    cells: Plane<Conserved2d<K::Real>>,
    r_areas: Vec<K::Real>,
    r_volumes: Vec<K::Real>,
    cfl: K::Real,
    time: K::Real,
    step_count: usize,
    escaped_energy: K::Real,
}

impl<K: Scheme2d> View for Euler2d<K> {
    type V = Domain2d<K>;

    closed spec fn view(&self) -> Domain2d<K> {
        Domain2d {
            scheme: self.scheme,
            geometry: self.geometry,
            bc_r_min: self.bc_r_min,
            bc_r_max: self.bc_r_max,
            bc_x_min: self.bc_x_min,
            bc_x_max: self.bc_x_max,
            n_x: self.cells.spec_width(),
            cells: self.cells@,
            areas: self.r_areas@,
            volumes: self.r_volumes@,
            cfl: self.cfl,
            time: self.time,
            steps: self.step_count as nat,
            escaped: self.escaped_energy,
        }
    }
}

/// What building a domain may return.
pub open spec fn is_build<K: Scheme2d>(
    scheme: K,
    geometry: Geometry,
    boundaries: [Boundary2d; 4],
    n_r: usize,
    n_x: usize,
    initial: Seq<Primitive2d<K::Real>>,
    r: Result<Euler2d<K>, Euler2dError>,
) -> bool {
    let fits = n_r >= 2 * N_GHOST && n_x >= 2 * N_GHOST;
    let counted = fits && initial.len() == n_r * n_x;
    let spaced = counted && call_ensures(K::spacing_is_valid, (&scheme,), true);
    let outside = spaced && call_ensures(K::starts_below_axis, (&scheme,), false);
    let undeclared = geometry == Geometry::Axisymmetric && boundaries[0] != Boundary2d::Axis;
    let declared = outside && (!undeclared || call_ensures(K::starts_on_axis, (&scheme,), false));
    match r {
        Ok(s) => {
            &&& declared
            &&& s.wf()
            &&& s@.scheme == scheme
            &&& s@.geometry == geometry
            &&& s@.bc_r_min == boundaries[0]
            &&& s@.bc_r_max == boundaries[1]
            &&& s@.bc_x_min == boundaries[2]
            &&& s@.bc_x_max == boundaries[3]
            &&& s@.n_x == n_x
            &&& s@.cells.len() == n_r
            &&& s@.steps == 0
            &&& call_ensures(K::default_cfl, (&scheme,), s@.cfl)
            &&& call_ensures(K::zero, (&scheme,), s@.time)
            &&& call_ensures(K::zero, (&scheme,), s@.escaped)
            &&& forall|k: int|
                0 <= k < initial.len() ==> call_ensures(
                    K::admits,
                    (&scheme, #[trigger] initial[k]),
                    true,
                )
            &&& forall|j: int, i: int|
                0 <= j < n_r && 0 <= i < n_x ==> call_ensures(
                    K::to_conserved,
                    (&scheme, initial[crate::plane::flat(n_x as int, j, i)]),
                    #[trigger] s@.cells[j][i],
                )
            &&& forall|k: int|
                0 <= k < s@.areas.len() ==> is_padded_area(
                    scheme,
                    geometry,
                    n_r,
                    boundaries[0],
                    boundaries[1],
                    k,
                    #[trigger] s@.areas[k],
                )
            &&& forall|k: int|
                0 <= k < s@.volumes.len() ==> is_padded_volume(
                    scheme,
                    geometry,
                    n_r,
                    boundaries[0],
                    boundaries[1],
                    k,
                    #[trigger] s@.volumes[k],
                )
        },
        Err(Euler2dError::TooFewCells { n_r: r, n_x: x }) => !fits && r == n_r && x == n_x,
        Err(Euler2dError::WrongCount { states }) => {
            fits && initial.len() != n_r * n_x && states == initial.len()
        },
        Err(Euler2dError::BadSpacing) => {
            counted && call_ensures(K::spacing_is_valid, (&scheme,), false)
        },
        Err(Euler2dError::NegativeRadius) => {
            spaced && call_ensures(K::starts_below_axis, (&scheme,), true)
        },
        Err(Euler2dError::AxisNotDeclared { boundary }) => {
            &&& outside
            &&& undeclared
            &&& call_ensures(K::starts_on_axis, (&scheme,), true)
            &&& boundary == boundaries[0]
        },
        Err(Euler2dError::BadInitialState { ring, column }) => {
            let k = crate::plane::flat(n_x as int, ring as int, column as int);
            &&& declared
            &&& ring < n_r
            &&& column < n_x
            &&& call_ensures(K::admits, (&scheme, initial[k]), false)
            &&& forall|m: int|
                0 <= m < k ==> call_ensures(K::admits, (&scheme, #[trigger] initial[m]), true)
        },
        _ => false,
    }
}

impl<K: Scheme2d> Euler2d<K> {
    pub closed spec fn stored(&self) -> bool {
        self.cells.wf()
    }

    /// The storage is sound and the domain valid.
    pub open spec fn wf(&self) -> bool {
        self.stored() && self@.valid()
    }

    /// Build from cell-centred primitive states in row-major order.
    /// `boundaries` are those at the inner and outer radius and at the lower and
    /// upper axial end.
    pub fn new(
        scheme: K,
        geometry: Geometry,
        boundaries: [Boundary2d; 4],
        n_r: usize,
        n_x: usize,
        initial: &[Primitive2d<K::Real>],
    ) -> (r: Result<Self, Euler2dError>)
        requires
            n_r + 2 * N_GHOST + 1 <= isize::MAX,
            n_x + 2 * N_GHOST + 1 <= isize::MAX,
        ensures
            is_build(scheme, geometry, boundaries, n_r, n_x, initial@, r),
    {
        if n_r < 2 * N_GHOST || n_x < 2 * N_GHOST {
            return Err(Euler2dError::TooFewCells { n_r, n_x });
        }
        let states: usize = initial.len();
        match n_r.checked_mul(n_x) {
            Some(n) => if n != states {
                return Err(Euler2dError::WrongCount { states });
            },
            None => {
                return Err(Euler2dError::WrongCount { states });
            },
        }
        if !scheme.spacing_is_valid() {
            return Err(Euler2dError::BadSpacing);
        }
        if scheme.starts_below_axis() {
            return Err(Euler2dError::NegativeRadius);
        }
        if geometry == Geometry::Axisymmetric && boundaries[0] != Boundary2d::Axis {
            if scheme.starts_on_axis() {
                return Err(Euler2dError::AxisNotDeclared { boundary: boundaries[0] });
            }
        }
        let ghost declared = geometry != Geometry::Axisymmetric || boundaries[0]
            == Boundary2d::Axis || call_ensures(K::starts_on_axis, (&scheme,), false);
        for k in 0..initial.len()
            invariant
                n_r >= 2 * N_GHOST,
                n_x >= 2 * N_GHOST,
                initial@.len() == n_r * n_x,
                call_ensures(K::spacing_is_valid, (&scheme,), true),
                call_ensures(K::starts_below_axis, (&scheme,), false),
                declared == (geometry != Geometry::Axisymmetric || boundaries[0]
                    == Boundary2d::Axis || call_ensures(K::starts_on_axis, (&scheme,), false)),
                declared,
                forall|m: int|
                    0 <= m < k ==> call_ensures(K::admits, (&scheme, #[trigger] initial@[m]), true),
        {
            if !scheme.admits(initial[k]) {
                let ring: usize = k / n_x;
                let column: usize = k % n_x;
                proof {
                    crate::plane::lemma_flat_unflat(n_x as int, k as int);
                    assert(ring < n_r) by (nonlinear_arith)
                        requires
                            ring * n_x + column == k,
                            k < n_r * n_x,
                            column >= 0,
                            n_x > 0,
                    ;
                }
                return Err(Euler2dError::BadInitialState { ring, column });
            }
        }
        let mut data: Vec<Conserved2d<K::Real>> = Vec::with_capacity(initial.len());
        for k in 0..initial.len()
            invariant
                data@.len() == k,
                forall|m: int|
                    0 <= m < k ==> call_ensures(
                        K::to_conserved,
                        (&scheme, initial@[m]),
                        #[trigger] data@[m],
                    ),
        {
            let u: Conserved2d<K::Real> = scheme.to_conserved(initial[k]);
            data.push(u);
        }
        let ghost flat_cells = data@;
        let cells: Plane<Conserved2d<K::Real>> = match Plane::from_vec(n_r, n_x, data) {
            Some(p) => p,
            None => {
                return Err(Euler2dError::WrongCount { states });
            },
        };
        let mut r_areas: Vec<K::Real> = Vec::with_capacity(n_r + 2 * N_GHOST + 1);
        for k in 0..n_r + 2 * N_GHOST + 1
            invariant
                n_r + 2 * N_GHOST + 1 <= isize::MAX,
                r_areas@.len() == k,
                forall|m: int|
                    0 <= m < k ==> is_padded_area(
                        scheme,
                        geometry,
                        n_r,
                        boundaries[0],
                        boundaries[1],
                        m,
                        #[trigger] r_areas@[m],
                    ),
        {
            let m: isize = k as isize - N_GHOST as isize;
            let r: K::Real = face_radius(&scheme, n_r, boundaries[0], boundaries[1], m);
            let area: K::Real = geometry.face_area(&scheme, r);
            r_areas.push(area);
        }
        let mut r_volumes: Vec<K::Real> = Vec::with_capacity(n_r + 2 * N_GHOST);
        for k in 0..n_r + 2 * N_GHOST
            invariant
                n_r + 2 * N_GHOST + 1 <= isize::MAX,
                r_volumes@.len() == k,
                forall|m: int|
                    0 <= m < k ==> is_padded_volume(
                        scheme,
                        geometry,
                        n_r,
                        boundaries[0],
                        boundaries[1],
                        m,
                        #[trigger] r_volumes@[m],
                    ),
        {
            let m: isize = k as isize - N_GHOST as isize;
            let a: K::Real = face_radius(&scheme, n_r, boundaries[0], boundaries[1], m);
            let b: K::Real = face_radius(&scheme, n_r, boundaries[0], boundaries[1], m + 1);
            let small: K::Real = scheme.smaller(a, b);
            let large: K::Real = scheme.larger(a, b);
            let volume: K::Real = geometry.cell_volume(&scheme, small, large);
            r_volumes.push(volume);
        }
        let cfl: K::Real = scheme.default_cfl();
        let time: K::Real = scheme.zero();
        let escaped_energy: K::Real = scheme.zero();
        let s: Self = Euler2d {
            scheme,
            geometry,
            bc_r_min: boundaries[0],
            bc_r_max: boundaries[1],
            bc_x_min: boundaries[2],
            bc_x_max: boundaries[3],
            cells,
            r_areas,
            r_volumes,
            cfl,
            time,
            step_count: 0,
            escaped_energy,
        };
        proof {
            assert(s.wf());
            assert forall|j: int, i: int| 0 <= j < n_r && 0 <= i < n_x implies call_ensures(
                K::to_conserved,
                (&scheme, initial@[crate::plane::flat(n_x as int, j, i)]),
                #[trigger] s@.cells[j][i],
            ) by {
                crate::plane::lemma_flat_bound(n_r as int, n_x as int, j, i);
                assert(s.cells@[j][i] == flat_cells[crate::plane::flat(n_x as int, j, i)]);
            }
        }
        Ok(s)
    }
}

/// `run[k]` is the larger of each signal speed over the first `k` states.
pub open spec fn is_speed_run<K: Scheme2d>(
    scheme: K,
    cells: Seq<Conserved2d<K::Real>>,
    run: Seq<(K::Real, K::Real)>,
) -> bool {
    &&& run.len() == cells.len() + 1
    &&& call_ensures(K::zero, (&scheme,), run[0].0)
    &&& call_ensures(K::zero, (&scheme,), run[0].1)
    &&& forall|k: int|
        #![trigger cells[k]]
        0 <= k < cells.len() ==> is_faster(scheme, cells[k], run[k], run[k + 1])
}

pub open spec fn is_faster<K: Scheme2d>(
    scheme: K,
    u: Conserved2d<K::Real>,
    before: (K::Real, K::Real),
    after: (K::Real, K::Real),
) -> bool {
    exists|r: K::Real, x: K::Real|
        {
            &&& #[trigger] call_ensures(K::r_speed, (&scheme, u), r)
            &&& #[trigger] call_ensures(K::x_speed, (&scheme, u), x)
            &&& call_ensures(K::larger, (&scheme, before.0, r), after.0)
            &&& call_ensures(K::larger, (&scheme, before.1, x), after.1)
        }
}

/// The cells of a domain, ring by ring.
pub open spec fn all_cells<S>(cells: Seq<Seq<S>>) -> Seq<S>
    decreases cells.len(),
{
    if cells.len() == 0 {
        Seq::empty()
    } else {
        all_cells(cells.drop_last()) + cells.last()
    }
}

/// `speeds` are the largest signal speeds along the radius and along the axis.
pub open spec fn are_max_speeds<K: Scheme2d>(pre: Domain2d<K>, speeds: (K::Real, K::Real)) -> bool {
    exists|run: Seq<(K::Real, K::Real)>|
        #[trigger] is_speed_run(pre.scheme, all_cells(pre.cells), run) && run.last() == speeds
}

/// What [`Euler2d::stable_dt`] may return for a domain.
pub open spec fn is_stable_dt<K: Scheme2d>(
    pre: Domain2d<K>,
    r: Result<K::Real, Euler2dError>,
) -> bool {
    exists|s: (K::Real, K::Real), rate: K::Real|
        {
            &&& #[trigger] are_max_speeds(pre, s)
            &&& #[trigger] call_ensures(K::crossing_rate, (&pre.scheme, s.0, s.1), rate)
            &&& match r {
                Ok(dt) => {
                    &&& call_ensures(K::is_positive, (&pre.scheme, rate), true)
                    &&& call_ensures(K::courant_step, (&pre.scheme, pre.cfl, rate), dt)
                },
                Err(e) => {
                    &&& call_ensures(K::is_positive, (&pre.scheme, rate), false)
                    &&& e matches Euler2dError::NoWaveSpeed { step } && step == pre.steps
                },
            }
        }
}

/// The row-major storage of an array is its rows one after the other.
proof fn lemma_stored_is_all_cells<S>(rows: Seq<Seq<S>>, width: nat, stored: Seq<S>)
    requires
        stored.len() == rows.len() * width,
        forall|j: int| 0 <= j < rows.len() ==> #[trigger] rows[j].len() == width,
        forall|j: int, i: int|
            0 <= j < rows.len() && 0 <= i < width ==> #[trigger] rows[j][i]
                == stored[crate::plane::flat(width as int, j, i)],
    ensures
        all_cells(rows) == stored,
    decreases rows.len(),
{
    let n = rows.len();
    if n > 0 {
        let m = (n - 1) as nat;
        assert(n * width == m * width + width) by (nonlinear_arith)
            requires
                n == m + 1,
        ;
        let cut = (m * width) as int;
        let lower = stored.subrange(0, cut);
        assert forall|j: int, i: int| 0 <= j < m && 0 <= i < width implies #[trigger] rows.drop_last()[j][i]
            == lower[crate::plane::flat(width as int, j, i)] by {
            crate::plane::lemma_flat_bound(m as int, width as int, j, i);
            assert(rows[j][i] == stored[crate::plane::flat(width as int, j, i)]);
        }
        lemma_stored_is_all_cells(rows.drop_last(), width, lower);
        assert forall|i: int| 0 <= i < width implies rows.last()[i] == stored[cut + i] by {
            assert(rows[m as int][i] == stored[crate::plane::flat(width as int, m as int, i)]);
        }
        assert(all_cells(rows) =~= stored);
    } else {
        assert(stored.len() == 0) by (nonlinear_arith)
            requires
                stored.len() == n * width,
                n == 0,
        ;
        assert(all_cells(rows) =~= stored);
    }
}

impl<K: Scheme2d> Euler2d<K> {
    /// Set the Courant number; one out of range is refused, not reduced.
    pub fn set_cfl(&mut self, cfl: K::Real) -> (r: Result<(), Euler2dError>)
        requires
            old(self).wf(),
        ensures
            final(self).wf(),
            match r {
                Ok(_) => {
                    &&& call_ensures(K::cfl_is_valid, (&old(self)@.scheme, cfl), true)
                    &&& final(self)@ == (Domain2d { cfl, ..old(self)@ })
                },
                Err(e) => {
                    &&& call_ensures(K::cfl_is_valid, (&old(self)@.scheme, cfl), false)
                    &&& e == Euler2dError::BadCfl
                    &&& final(self)@ == old(self)@
                },
            },
    {
        if !self.scheme.cfl_is_valid(cfl) {
            return Err(Euler2dError::BadCfl);
        }
        self.cfl = cfl;
        Ok(())
    }

    /// Courant number in force.
    pub fn cfl(&self) -> (cfl: K::Real)
        ensures
            cfl == self@.cfl,
    {
        self.cfl
    }

    /// Elapsed time.
    pub fn time(&self) -> (t: K::Real)
        ensures
            t == self@.time,
    {
        self.time
    }

    /// Completed steps.
    pub fn steps(&self) -> (n: usize)
        ensures
            n == self@.steps,
    {
        self.step_count
    }

    /// Rings.
    pub fn n_r(&self) -> (n: usize)
        ensures
            n == self@.cells.len(),
    {
        self.cells.height()
    }

    /// Axial cells.
    pub fn n_x(&self) -> (n: usize)
        ensures
            n == self@.n_x,
    {
        self.cells.width()
    }

    /// The arithmetic in force.
    pub fn scheme(&self) -> (k: &K)
        ensures
            *k == self@.scheme,
    {
        &self.scheme
    }

    /// The geometry in force.
    pub fn geometry(&self) -> (g: Geometry)
        ensures
            g == self@.geometry,
    {
        self.geometry
    }

    /// The cells of a domain can be counted.
    pub proof fn lemma_area_fits(&self)
        requires
            self.wf(),
        ensures
            self@.cells.len() * self@.n_x <= usize::MAX,
    {
    }

    /// Volume of ring `j`.
    pub fn ring_volume(&self, j: usize) -> (v: K::Real)
        requires
            self.wf(),
            j < self@.cells.len(),
        ensures
            v == self@.volumes[N_GHOST + j],
    {
        self.r_volumes[N_GHOST + j]
    }

    /// Conserved state, interior cells, row-major.
    pub fn cells(&self) -> (c: &[Conserved2d<K::Real>])
        requires
            self.wf(),
        ensures
            c@ == all_cells(self@.cells),
    {
        proof {
            lemma_stored_is_all_cells(self.cells@, self.cells.spec_width(), self.cells.stored());
        }
        self.cells.as_slice()
    }

    /// Conserved state of ring `j`, axial cell `i`.
    pub fn cell(&self, j: usize, i: usize) -> (u: Conserved2d<K::Real>)
        requires
            self.wf(),
            j < self@.cells.len(),
            i < self@.n_x,
        ensures
            u == self@.cells[j as int][i as int],
    {
        *self.cells.at(j, i)
    }

    /// Energy that has left through transmissive edges.
    pub fn escaped_energy(&self) -> (e: K::Real)
        ensures
            e == self@.escaped,
    {
        self.escaped_energy
    }

    /// Primitive state, interior cells, row-major.
    pub fn primitives(&self) -> (out: Vec<Primitive2d<K::Real>>)
        requires
            self.wf(),
        ensures
            out@.len() == all_cells(self@.cells).len(),
            forall|k: int|
                0 <= k < out@.len() ==> call_ensures(
                    K::to_primitive,
                    (&self@.scheme, all_cells(self@.cells)[k]),
                    #[trigger] out@[k],
                ),
    {
        let cells: &[Conserved2d<K::Real>] = self.cells();
        let mut out: Vec<Primitive2d<K::Real>> = Vec::with_capacity(cells.len());
        for k in 0..cells.len()
            invariant
                out@.len() == k,
                forall|j: int|
                    0 <= j < k ==> call_ensures(
                        K::to_primitive,
                        (&self.scheme, cells@[j]),
                        #[trigger] out@[j],
                    ),
        {
            let w: Primitive2d<K::Real> = self.scheme.to_primitive(cells[k]);
            out.push(w);
        }
        out
    }

    /// Largest signal speeds along the radius and along the axis.
    pub fn max_wave_speeds(&self) -> (s: (K::Real, K::Real))
        requires
            self.wf(),
        ensures
            are_max_speeds(self@, s),
    {
        let cells: &[Conserved2d<K::Real>] = self.cells();
        let mut r: K::Real = self.scheme.zero();
        let mut x: K::Real = self.scheme.zero();
        let ghost mut run: Seq<(K::Real, K::Real)> = seq![(r, x)];
        for k in 0..cells.len()
            invariant
                run.last() == (r, x),
                is_speed_run(self.scheme, cells@.subrange(0, k as int), run),
        {
            let u: Conserved2d<K::Real> = cells[k];
            let sr: K::Real = self.scheme.r_speed(u);
            let sx: K::Real = self.scheme.x_speed(u);
            let r2: K::Real = self.scheme.larger(r, sr);
            let x2: K::Real = self.scheme.larger(x, sx);
            proof {
                let shorter = cells@.subrange(0, k as int);
                let longer = cells@.subrange(0, k + 1);
                assert(is_faster(self.scheme, u, (r, x), (r2, x2)));
                let run2 = run.push((r2, x2));
                assert forall|j: int| 0 <= j < longer.len() implies is_faster(
                    self.scheme,
                    #[trigger] longer[j],
                    run2[j],
                    run2[j + 1],
                ) by {
                    if j < k {
                        assert(longer[j] == shorter[j]);
                    }
                }
                run = run2;
            }
            r = r2;
            x = x2;
        }
        proof {
            assert(cells@.subrange(0, cells@.len() as int) =~= cells@);
            assert(is_speed_run(self@.scheme, all_cells(self@.cells), run));
        }
        (r, x)
    }

    /// Stable step from the current signal speeds in both directions.
    pub fn stable_dt(&self) -> (r: Result<K::Real, Euler2dError>)
        requires
            self.wf(),
        ensures
            is_stable_dt(self@, r),
    {
        let (sr, sx) = self.max_wave_speeds();
        let rate: K::Real = self.scheme.crossing_rate(sr, sx);
        proof {
            assert(are_max_speeds(self@, (sr, sx)));
        }
        if !self.scheme.is_positive(rate) {
            return Err(Euler2dError::NoWaveSpeed { step: self.step_count });
        }
        Ok(self.scheme.courant_step(self.cfl, rate))
    }
}

/// The axial sweep of ring `j`: unit areas, since the axial faces of an annular
/// cell and its volume carry the same ring area.
pub open spec fn axial_sweep<K: Scheme2d>(
    pre: Domain2d<K>,
    dt: K::Real,
    one: K::Real,
    dx: K::Real,
    j: int,
) -> Sweep<K> {
    Sweep {
        scheme: pre.scheme,
        line: pre.cells[j],
        dt,
        dir: Dir::Axial,
        lo: pre.bc_x_min,
        hi: pre.bc_x_max,
        areas: Seq::new((pre.n_x + 2 * N_GHOST + 1) as nat, |k: int| one),
        volumes: Seq::new((pre.n_x + 2 * N_GHOST) as nat, |k: int| dx),
        geometric: false,
        flips: true,
        fixed: j as nat,
        steps: pre.steps,
    }
}

/// The radial sweep of column `i`.
pub open spec fn radial_sweep<K: Scheme2d>(
    pre: Domain2d<K>,
    dt: K::Real,
    flips: bool,
    well_balanced: bool,
    i: int,
) -> Sweep<K> {
    Sweep {
        scheme: pre.scheme,
        line: column_of(pre.cells, i),
        dt,
        dir: Dir::Radial,
        lo: pre.bc_r_min,
        hi: pre.bc_r_max,
        areas: pre.areas,
        volumes: pre.volumes,
        geometric: well_balanced && pre.geometry == Geometry::Axisymmetric,
        flips,
        fixed: i as nat,
        steps: pre.steps,
    }
}

pub open spec fn axial_sweeps<K: Scheme2d>(
    pre: Domain2d<K>,
    dt: K::Real,
    one: K::Real,
    dx: K::Real,
) -> spec_fn(int) -> Sweep<K> {
    |j: int| axial_sweep(pre, dt, one, dx, j)
}

pub open spec fn radial_sweeps<K: Scheme2d>(
    pre: Domain2d<K>,
    dt: K::Real,
    flips: bool,
    well_balanced: bool,
) -> spec_fn(int) -> Sweep<K> {
    |i: int| radial_sweep(pre, dt, flips, well_balanced, i)
}

/// The axial end faces of a ring carry its ring area.
pub open spec fn ring_weights<K: Scheme2d>(pre: Domain2d<K>) -> spec_fn(int) -> K::Real {
    |j: int| pre.volumes[N_GHOST + j]
}

/// The radial end faces of every column span one axial cell.
pub open spec fn same_weight<R>(weight: R) -> spec_fn(int) -> R {
    |i: int| weight
}

/// What the sweep of one line may return.
pub open spec fn is_line_outcome<K: Scheme2d>(
    sweep: Sweep<K>,
    r: Result<(Seq<Conserved2d<K::Real>>, K::Real), Euler2dError>,
) -> bool {
    exists|padded: Seq<Conserved2d<K::Real>>, faces: Seq<Faces<K::Real>>| #[trigger]
        sweep.is_outcome(padded, faces, r)
}

/// `after` is `before` plus `amount` scaled by `weight`.
pub open spec fn is_weighted_sum<K: Scheme2d>(
    scheme: K,
    before: K::Real,
    amount: K::Real,
    weight: K::Real,
    after: K::Real,
) -> bool {
    exists|q: K::Real|
        #[trigger] call_ensures(K::times, (&scheme, amount, weight), q) && call_ensures(
            K::plus,
            (&scheme, before, q),
            after,
        )
}

/// The first lines of a set of sweeps: each with its result, and `run` the
/// running total of what they let escape, each weighted.
pub open spec fn are_swept<K: Scheme2d>(
    scheme: K,
    sweeps: spec_fn(int) -> Sweep<K>,
    weights: spec_fn(int) -> K::Real,
    lines: Seq<(Seq<Conserved2d<K::Real>>, K::Real)>,
    run: Seq<K::Real>,
) -> bool {
    &&& run.len() == lines.len() + 1
    &&& call_ensures(K::zero, (&scheme,), run[0])
    &&& forall|k: int|
        #![trigger lines[k]]
        0 <= k < lines.len() ==> is_line_outcome(sweeps(k), Ok(lines[k])) && is_weighted_sum(
            scheme,
            run[k],
            lines[k].1,
            weights(k),
            run[k + 1],
        )
}

/// The first `lines.len()` rings replaced.
pub open spec fn with_rows<S, T>(cells: Seq<Seq<S>>, lines: Seq<(Seq<S>, T)>) -> Seq<Seq<S>> {
    Seq::new(
        cells.len(),
        |j: int| if j < lines.len() {
            lines[j].0
        } else {
            cells[j]
        },
    )
}

/// The first `lines.len()` columns replaced.
pub open spec fn with_columns<S, T>(cells: Seq<Seq<S>>, lines: Seq<(Seq<S>, T)>) -> Seq<Seq<S>> {
    Seq::new(
        cells.len(),
        |j: int| Seq::new(
            cells[j].len(),
            |i: int| if i < lines.len() {
                lines[i].0[j]
            } else {
                cells[j][i]
            },
        ),
    )
}

/// What sweeping every ring along the axis may do. On a refusal the rings
/// before the refused one are swept and the others are as they were.
pub open spec fn is_x_sweep<K: Scheme2d>(
    pre: Domain2d<K>,
    dt: K::Real,
    post: Domain2d<K>,
    r: Result<(), Euler2dError>,
) -> bool {
    exists|
        one: K::Real,
        dx: K::Real,
        lines: Seq<(Seq<Conserved2d<K::Real>>, K::Real)>,
        run: Seq<K::Real>,
    |
        {
            let sweeps = axial_sweeps(pre, dt, one, dx);
            &&& #[trigger] call_ensures(K::one, (&pre.scheme,), one)
            &&& #[trigger] call_ensures(K::dx, (&pre.scheme,), dx)
            &&& #[trigger] are_swept(
                pre.scheme,
                axial_sweeps(pre, dt, one, dx),
                ring_weights(pre),
                lines,
                run,
            )
            &&& is_sweep_end(
                pre,
                sweeps,
                pre.cells.len() as int,
                with_rows(pre.cells, lines),
                lines,
                run,
                post,
                r,
            )
        }
}

/// How a set of `n` sweeps ends: all done and the escaped energy booked, or the
/// next one refused.
pub open spec fn is_sweep_end<K: Scheme2d>(
    pre: Domain2d<K>,
    sweeps: spec_fn(int) -> Sweep<K>,
    n: int,
    cells: Seq<Seq<Conserved2d<K::Real>>>,
    lines: Seq<(Seq<Conserved2d<K::Real>>, K::Real)>,
    run: Seq<K::Real>,
    post: Domain2d<K>,
    r: Result<(), Euler2dError>,
) -> bool {
    match r {
        Ok(_) => {
            &&& lines.len() == n
            &&& call_ensures(K::plus, (&pre.scheme, pre.escaped, run.last()), post.escaped)
            &&& post == (Domain2d { cells, escaped: post.escaped, ..pre })
        },
        Err(e) => {
            &&& lines.len() < n
            &&& is_line_outcome(sweeps(lines.len() as int), Err(e))
            &&& post == (Domain2d { cells, ..pre })
        },
    }
}

/// What sweeping every column along the radius may do. On a refusal the columns
/// before the refused one are swept and the others are as they were.
pub open spec fn is_r_sweep<K: Scheme2d>(
    pre: Domain2d<K>,
    dt: K::Real,
    flips: bool,
    well_balanced: bool,
    post: Domain2d<K>,
    r: Result<(), Euler2dError>,
) -> bool {
    exists|dx: K::Real, lines: Seq<(Seq<Conserved2d<K::Real>>, K::Real)>, run: Seq<K::Real>|
        {
            let sweeps = radial_sweeps(pre, dt, flips, well_balanced);
            &&& #[trigger] call_ensures(K::dx, (&pre.scheme,), dx)
            &&& #[trigger] are_swept(
                pre.scheme,
                radial_sweeps(pre, dt, flips, well_balanced),
                same_weight(dx),
                lines,
                run,
            )
            &&& is_sweep_end(
                pre,
                sweeps,
                pre.n_x as int,
                with_columns(pre.cells, lines),
                lines,
                run,
                post,
                r,
            )
        }
}

/// Adding one swept line to those already swept.
proof fn lemma_one_more_line<K: Scheme2d>(
    scheme: K,
    sweeps: spec_fn(int) -> Sweep<K>,
    weights: spec_fn(int) -> K::Real,
    lines: Seq<(Seq<Conserved2d<K::Real>>, K::Real)>,
    run: Seq<K::Real>,
    line: (Seq<Conserved2d<K::Real>>, K::Real),
    next: K::Real,
)
    requires
        are_swept(scheme, sweeps, weights, lines, run),
        is_line_outcome(sweeps(lines.len() as int), Ok(line)),
        is_weighted_sum(scheme, run.last(), line.1, weights(lines.len() as int), next),
    ensures
        are_swept(scheme, sweeps, weights, lines.push(line), run.push(next)),
{
    let m = lines.len() as int;
    let lines2 = lines.push(line);
    let run2 = run.push(next);
    assert forall|k: int|
        #![trigger lines2[k]]
        0 <= k < m + 1 implies is_line_outcome(sweeps(k), Ok(lines2[k])) && is_weighted_sum(
        scheme,
        run2[k],
        lines2[k].1,
        weights(k),
        run2[k + 1],
    ) by {
        if k < m {
            assert(lines2[k] == lines[k]);
        }
    }
}

impl<K: Scheme2d> Euler2d<K> {
    /// Sweep every ring along the axis.
    fn sweep_x(&mut self, dt: K::Real) -> (r: Result<(), Euler2dError>)
        requires
            old(self).wf(),
        ensures
            final(self).wf(),
            is_x_sweep(old(self)@, dt, final(self)@, r),
    {
        let ghost pre = self@;
        let n_r: usize = self.cells.height();
        let n_x: usize = self.cells.width();
        let one: K::Real = self.scheme.one();
        let dx: K::Real = self.scheme.dx();
        let areas: Vec<K::Real> = filled(one, n_x + 2 * N_GHOST + 1);
        let volumes: Vec<K::Real> = filled(dx, n_x + 2 * N_GHOST);
        let mut escaped: K::Real = self.scheme.zero();
        let ghost sweeps = axial_sweeps(pre, dt, one, dx);
        let ghost weights = ring_weights(pre);
        let ghost mut lines: Seq<(Seq<Conserved2d<K::Real>>, K::Real)> = Seq::empty();
        let ghost mut run: Seq<K::Real> = seq![escaped];
        proof {
            assert(with_rows(pre.cells, lines) =~= pre.cells);
            assert(are_swept(pre.scheme, sweeps, weights, lines, run));
        }
        for j in 0..n_r
            invariant
                pre == old(self)@,
                pre.valid(),
                n_r == pre.cells.len(),
                n_x == pre.n_x,
                call_ensures(K::one, (&pre.scheme,), one),
                call_ensures(K::dx, (&pre.scheme,), dx),
                areas@ == Seq::new((n_x + 2 * N_GHOST + 1) as nat, |k: int| one),
                volumes@ == Seq::new((n_x + 2 * N_GHOST) as nat, |k: int| dx),
                sweeps == axial_sweeps(pre, dt, one, dx),
                weights == ring_weights(pre),
                lines.len() == j,
                run.last() == escaped,
                are_swept(pre.scheme, sweeps, weights, lines, run),
                forall|k: int| 0 <= k < j ==> (#[trigger] lines[k]).0.len() == n_x,
                self.wf(),
                self@ == (Domain2d { cells: with_rows(pre.cells, lines), ..pre }),
        {
            let line: Vec<Conserved2d<K::Real>> = self.cells.row(j);
            let r: Result<(Vec<Conserved2d<K::Real>>, K::Real), Euler2dError> = sweep_line(
                &self.scheme,
                line.as_slice(),
                dt,
                Dir::Axial,
                self.bc_x_min,
                self.bc_x_max,
                areas.as_slice(),
                volumes.as_slice(),
                false,
                true,
                j,
                self.step_count,
            );
            proof {
                assert(line@ == pre.cells[j as int]);
                assert(is_line_outcome(sweeps(j as int), line_view::<K>(r)));
            }
            match r {
                Ok((updated, esc)) => {
                    let weight: K::Real = self.r_volumes[N_GHOST + j];
                    let q: K::Real = self.scheme.times(esc, weight);
                    let next: K::Real = self.scheme.plus(escaped, q);
                    self.cells.set_row(j, updated.as_slice());
                    proof {
                        assert(weights(j as int) == weight);
                        assert(is_weighted_sum(pre.scheme, escaped, esc, weight, next));
                        lemma_one_more_line(
                            pre.scheme,
                            sweeps,
                            weights,
                            lines,
                            run,
                            (updated@, esc),
                            next,
                        );
                        let before = with_rows(pre.cells, lines);
                        lines = lines.push((updated@, esc));
                        run = run.push(next);
                        assert(self.cells@ =~= with_rows(pre.cells, lines));
                    }
                    escaped = next;
                },
                Err(e) => {
                    proof {
                        assert(is_sweep_end(
                            pre,
                            sweeps,
                            n_r as int,
                            with_rows(pre.cells, lines),
                            lines,
                            run,
                            self@,
                            Err(e),
                        ));
                    }
                    return Err(e);
                },
            }
        }
        self.escaped_energy = self.scheme.plus(self.escaped_energy, escaped);
        proof {
            assert(is_sweep_end(
                pre,
                sweeps,
                n_r as int,
                with_rows(pre.cells, lines),
                lines,
                run,
                self@,
                Ok(()),
            ));
        }
        Ok(())
    }

    /// Sweep every column along the radius. The geometric source is part of the
    /// sweep where the scheme is well-balanced and the geometry axisymmetric.
    fn sweep_r(&mut self, dt: K::Real, flips: bool, well_balanced: bool) -> (r: Result<
        (),
        Euler2dError,
    >)
        requires
            old(self).wf(),
        ensures
            final(self).wf(),
            is_r_sweep(old(self)@, dt, flips, well_balanced, final(self)@, r),
    {
        let ghost pre = self@;
        let geometric: bool = well_balanced && self.geometry == Geometry::Axisymmetric;
        let n_r: usize = self.cells.height();
        let n_x: usize = self.cells.width();
        let dx: K::Real = self.scheme.dx();
        let mut escaped: K::Real = self.scheme.zero();
        let ghost sweeps = radial_sweeps(pre, dt, flips, well_balanced);
        let ghost weights = same_weight(dx);
        let ghost mut lines: Seq<(Seq<Conserved2d<K::Real>>, K::Real)> = Seq::empty();
        let ghost mut run: Seq<K::Real> = seq![escaped];
        proof {
            assert forall|j: int| 0 <= j < pre.cells.len() implies #[trigger] with_columns(
                pre.cells,
                lines,
            )[j] == pre.cells[j] by {
                assert(with_columns(pre.cells, lines)[j] =~= pre.cells[j]);
            }
            assert(with_columns(pre.cells, lines) =~= pre.cells);
            assert(are_swept(pre.scheme, sweeps, weights, lines, run));
        }
        for i in 0..n_x
            invariant
                pre == old(self)@,
                pre.valid(),
                n_r == pre.cells.len(),
                n_x == pre.n_x,
                geometric == (well_balanced && pre.geometry == Geometry::Axisymmetric),
                call_ensures(K::dx, (&pre.scheme,), dx),
                sweeps == radial_sweeps(pre, dt, flips, well_balanced),
                weights == same_weight(dx),
                lines.len() == i,
                run.last() == escaped,
                are_swept(pre.scheme, sweeps, weights, lines, run),
                forall|k: int| 0 <= k < i ==> (#[trigger] lines[k]).0.len() == n_r,
                self.wf(),
                self@ == (Domain2d { cells: with_columns(pre.cells, lines), ..pre }),
        {
            let line: Vec<Conserved2d<K::Real>> = self.cells.column(i);
            let r: Result<(Vec<Conserved2d<K::Real>>, K::Real), Euler2dError> = sweep_line(
                &self.scheme,
                line.as_slice(),
                dt,
                Dir::Radial,
                self.bc_r_min,
                self.bc_r_max,
                self.r_areas.as_slice(),
                self.r_volumes.as_slice(),
                geometric,
                flips,
                i,
                self.step_count,
            );
            proof {
                assert(line@ =~= column_of(pre.cells, i as int)) by {
                    assert forall|j: int| 0 <= j < n_r implies line@[j] == pre.cells[j][i as int] by {
                        assert(with_columns(pre.cells, lines)[j][i as int] == pre.cells[j][i as int]);
                    }
                }
                assert(is_line_outcome(sweeps(i as int), line_view::<K>(r)));
            }
            match r {
                Ok((updated, esc)) => {
                    let q: K::Real = self.scheme.times(esc, dx);
                    let next: K::Real = self.scheme.plus(escaped, q);
                    self.cells.set_column(i, updated.as_slice());
                    proof {
                        assert(is_weighted_sum(pre.scheme, escaped, esc, weights(i as int), next));
                        lemma_one_more_line(
                            pre.scheme,
                            sweeps,
                            weights,
                            lines,
                            run,
                            (updated@, esc),
                            next,
                        );
                        let before = with_columns(pre.cells, lines);
                        let lines2 = lines.push((updated@, esc));
                        let after = with_columns(pre.cells, lines2);
                        assert(self.cells@ == with_column(before, i as int, updated@));
                        assert forall|j: int| 0 <= j < n_r implies #[trigger] self.cells@[j]
                            == after[j] by {
                            assert(self.cells@[j] =~= after[j]);
                        }
                        assert(self.cells@ =~= after);
                        lines = lines2;
                        run = run.push(next);
                    }
                    escaped = next;
                },
                Err(e) => {
                    proof {
                        assert(is_sweep_end(
                            pre,
                            sweeps,
                            n_x as int,
                            with_columns(pre.cells, lines),
                            lines,
                            run,
                            self@,
                            Err(e),
                        ));
                    }
                    return Err(e);
                },
            }
        }
        self.escaped_energy = self.scheme.plus(self.escaped_energy, escaped);
        proof {
            assert(is_sweep_end(
                pre,
                sweeps,
                n_x as int,
                with_columns(pre.cells, lines),
                lines,
                run,
                self@,
                Ok(()),
            ));
        }
        Ok(())
    }
}

/// `n` copies of a value.
fn filled<R: Copy>(value: R, n: usize) -> (v: Vec<R>)
    ensures
        v@ == Seq::new(n as nat, |k: int| value),
{
    let mut v: Vec<R> = Vec::with_capacity(n);
    for k in 0..n
        invariant
            v@ == Seq::new(k as nat, |j: int| value),
    {
        v.push(value);
        proof {
            assert(v@ =~= Seq::new((k + 1) as nat, |j: int| value));
        }
    }
    v
}

/// `f` applied to every cell, ring by ring: `cells` becomes `mapped`.
pub open spec fn are_mapped<K: Scheme2d>(
    cells: Seq<Seq<Conserved2d<K::Real>>>,
    f: spec_fn(int, int, Conserved2d<K::Real>, Conserved2d<K::Real>) -> bool,
    mapped: Seq<Seq<Conserved2d<K::Real>>>,
) -> bool {
    &&& mapped.len() == cells.len()
    &&& forall|j: int| 0 <= j < cells.len() ==> #[trigger] mapped[j].len() == cells[j].len()
    &&& forall|j: int, i: int|
        0 <= j < cells.len() && 0 <= i < cells[j].len() ==> f(
            j,
            i,
            cells[j][i],
            #[trigger] mapped[j][i],
        )
}

/// What a change of every cell in place may do: the cells are changed, and the
/// first that is then non-physical is refused.
pub open spec fn is_mapping<K: Scheme2d>(
    pre: Domain2d<K>,
    f: spec_fn(int, int, Conserved2d<K::Real>, Conserved2d<K::Real>) -> bool,
    stage: Stage2d,
    post: Domain2d<K>,
    r: Result<(), Euler2dError>,
) -> bool {
    &&& are_mapped::<K>(pre.cells, f, post.cells)
    &&& post == (Domain2d { cells: post.cells, ..pre })
    &&& match r {
        Ok(_) => all_physical(pre.scheme, all_cells(post.cells)),
        Err(e) => exists|k: int|
            {
                &&& #[trigger] first_bad(pre.scheme, all_cells(post.cells), k)
                &&& e matches Euler2dError::NonPhysical { stage: s, step, j, i } && s == stage
                    && step == pre.steps && j == k / pre.n_x as int && i == k % pre.n_x as int
            },
    }
}

/// The geometric source alone, at the centre radius of each ring.
pub open spec fn pushed<K: Scheme2d>(scheme: K, dt: K::Real) -> spec_fn(
    int,
    int,
    Conserved2d<K::Real>,
    Conserved2d<K::Real>,
) -> bool {
    |j: int, i: int, u: Conserved2d<K::Real>, v: Conserved2d<K::Real>|
        exists|r: K::Real|
            #[trigger] call_ensures(K::r_centre, (&scheme, j as usize), r) && call_ensures(
                K::push_outward,
                (&scheme, dt, u, r),
                v,
            )
}

/// `v` is `u` after a source of the given rate has acted for `dt`: the energy is
/// another, the density and the momenta are kept.
pub open spec fn is_warmed<K: Scheme2d>(
    scheme: K,
    dt: K::Real,
    u: Conserved2d<K::Real>,
    rate: K::Real,
    v: Conserved2d<K::Real>,
) -> bool {
    &&& v == (Conserved2d { energy: v.energy, ..u })
    &&& call_ensures(K::heat, (&scheme, dt, u.energy, rate), v.energy)
}

/// An energy source with the given rates.
pub open spec fn heated<K: Scheme2d>(
    scheme: K,
    dt: K::Real,
    rates: spec_fn(int, int, K::Real, K::Real, K::Real) -> bool,
) -> spec_fn(int, int, Conserved2d<K::Real>, Conserved2d<K::Real>) -> bool {
    |j: int, i: int, u: Conserved2d<K::Real>, v: Conserved2d<K::Real>|
        exists|r: K::Real, x: K::Real, rate: K::Real|
            {
                &&& #[trigger] rates(j, i, r, x, rate)
                &&& call_ensures(K::r_centre, (&scheme, j as usize), r)
                &&& call_ensures(K::x_centre, (&scheme, i as usize), x)
                &&& is_warmed(scheme, dt, u, rate, v)
            }
}

/// The rates that a source closure may give.
pub open spec fn rates_of<R, F: Fn(usize, usize, R, R) -> R>(source: F) -> spec_fn(
    int,
    int,
    R,
    R,
    R,
) -> bool {
    |j: int, i: int, r: R, x: R, rate: R|
        call_ensures(source, (j as usize, i as usize, r, x), rate)
}

/// The step may be taken: positive and within the stable one.
pub open spec fn is_admitted<K: Scheme2d>(pre: Domain2d<K>, dt: K::Real) -> bool {
    &&& call_ensures(K::is_positive, (&pre.scheme, dt), true)
    &&& exists|limit: K::Real|
        is_stable_dt(pre, Ok(limit)) && #[trigger] call_ensures(
            K::violates,
            (&pre.scheme, dt, limit),
            false,
        )
}

/// The step is refused before anything is changed.
pub open spec fn is_rejected<K: Scheme2d>(
    pre: Domain2d<K>,
    dt: K::Real,
    e: Euler2dError,
) -> bool {
    match e {
        Euler2dError::BadStep { step } => {
            &&& call_ensures(K::is_positive, (&pre.scheme, dt), false)
            &&& step == pre.steps
        },
        Euler2dError::NoWaveSpeed { step } => {
            &&& call_ensures(K::is_positive, (&pre.scheme, dt), true)
            &&& is_stable_dt(pre, Err(e))
        },
        Euler2dError::CflViolation { step } => {
            &&& call_ensures(K::is_positive, (&pre.scheme, dt), true)
            &&& step == pre.steps
            &&& exists|limit: K::Real|
                is_stable_dt(pre, Ok(limit)) && #[trigger] call_ensures(
                    K::violates,
                    (&pre.scheme, dt, limit),
                    true,
                )
        },
        _ => false,
    }
}

/// The stages of a step after its guards, in order: radial half-sweep `a`,
/// axial sweep `b`, radial half-sweep `c`, and the split geometric source `d`
/// where the scheme is not well-balanced and the geometry axisymmetric. The
/// first stage that refuses ends the step with the domain as that stage left
/// it.
pub open spec fn is_split_step<K: Scheme2d>(
    pre: Domain2d<K>,
    dt: K::Real,
    flips: bool,
    well_balanced: bool,
    half: K::Real,
    a: Domain2d<K>,
    b: Domain2d<K>,
    c: Domain2d<K>,
    d: Domain2d<K>,
    post: Domain2d<K>,
    r: Result<(), Euler2dError>,
) -> bool {
    let split = !well_balanced && pre.geometry == Geometry::Axisymmetric;
    let source = pushed(pre.scheme, dt);
    let stage = Stage2d::SplitGeometricSource;
    let first = is_r_sweep(pre, half, flips, well_balanced, a, Ok(()));
    let second = first && is_x_sweep(a, dt, b, Ok(()));
    let third = second && is_r_sweep(b, half, flips, well_balanced, c, Ok(()));
    let last = third && if split {
        is_mapping(c, source, stage, d, Ok(()))
    } else {
        d == c
    };
    &&& call_ensures(K::half, (&pre.scheme, dt), half)
    &&& match r {
        Ok(_) => {
            &&& last
            &&& call_ensures(K::plus, (&pre.scheme, d.time, dt), post.time)
            &&& post == (Domain2d { time: post.time, steps: d.steps + 1, ..d })
        },
        Err(e) => {
            ||| post == a && is_r_sweep(pre, half, flips, well_balanced, a, r)
            ||| post == b && first && is_x_sweep(a, dt, b, r)
            ||| post == c && second && is_r_sweep(b, half, flips, well_balanced, c, r)
            ||| post == d && third && split && is_mapping(c, source, stage, d, r)
        },
    }
}

/// A heating under some rates is a heating under any that allow those rates.
pub proof fn lemma_heating_widens<K: Scheme2d>(
    pre: Domain2d<K>,
    dt: K::Real,
    narrow: spec_fn(int, int, K::Real, K::Real, K::Real) -> bool,
    wide: spec_fn(int, int, K::Real, K::Real, K::Real) -> bool,
    post: Domain2d<K>,
    r: Result<(), Euler2dError>,
)
    requires
        forall|j: int, i: int, y: K::Real, x: K::Real, q: K::Real|
            0 <= j < pre.cells.len() && 0 <= i < pre.cells[j].len() && #[trigger] narrow(
                j,
                i,
                y,
                x,
                q,
            ) ==> wide(j, i, y, x, q),
        is_heating_outcome(pre, dt, narrow, post, r),
    ensures
        is_heating_outcome(pre, dt, wide, post, r),
{
    if call_ensures(K::is_source_interval, (&pre.scheme, dt), true) && is_mapping(
        pre,
        heated(pre.scheme, dt, narrow),
        Stage2d::EnergySource,
        post,
        r,
    ) {
        let f = heated(pre.scheme, dt, narrow);
        let g = heated(pre.scheme, dt, wide);
        assert forall|j: int, i: int| 0 <= j < pre.cells.len() && 0 <= i < pre.cells[j].len() implies g(
            j,
            i,
            pre.cells[j][i],
            #[trigger] post.cells[j][i],
        ) by {
            assert(f(j, i, pre.cells[j][i], post.cells[j][i]));
            let (y, x, q) = choose|y: K::Real, x: K::Real, q: K::Real|
                {
                    &&& #[trigger] narrow(j, i, y, x, q)
                    &&& call_ensures(K::r_centre, (&pre.scheme, j as usize), y)
                    &&& call_ensures(K::x_centre, (&pre.scheme, i as usize), x)
                    &&& is_warmed(pre.scheme, dt, pre.cells[j][i], q, post.cells[j][i])
                };
            assert(wide(j, i, y, x, q));
        }
        assert(are_mapped::<K>(pre.cells, g, post.cells));
    }
}

/// What a step may do.
pub open spec fn is_step_outcome<K: Scheme2d>(
    pre: Domain2d<K>,
    dt: K::Real,
    flips: bool,
    well_balanced: bool,
    post: Domain2d<K>,
    r: Result<(), Euler2dError>,
) -> bool {
    ||| post == pre && (r matches Err(e) && is_rejected(pre, dt, e))
    ||| {
        &&& is_admitted(pre, dt)
        &&& exists|half: K::Real, a: Domain2d<K>, b: Domain2d<K>, c: Domain2d<K>, d: Domain2d<K>|
            #[trigger] is_split_step(
                pre,
                dt,
                flips,
                well_balanced,
                half,
                a,
                b,
                c,
                d,
                post,
                r,
            )
    }
}

/// What [`Euler2d::add_energy`] may do.
pub open spec fn is_heating_outcome<K: Scheme2d>(
    pre: Domain2d<K>,
    dt: K::Real,
    rates: spec_fn(int, int, K::Real, K::Real, K::Real) -> bool,
    post: Domain2d<K>,
    r: Result<(), Euler2dError>,
) -> bool {
    ||| {
        &&& r == Err::<(), Euler2dError>(Euler2dError::BadSourceInterval)
        &&& call_ensures(K::is_source_interval, (&pre.scheme, dt), false)
        &&& post == pre
    }
    ||| {
        &&& call_ensures(K::is_source_interval, (&pre.scheme, dt), true)
        &&& is_mapping(pre, heated(pre.scheme, dt, rates), Stage2d::EnergySource, post, r)
    }
}

impl<K: Scheme2d> Euler2d<K> {
    /// Refuse the first non-physical cell of the domain.
    fn assert_physical(&self, stage: Stage2d) -> (r: Result<(), Euler2dError>)
        requires
            self.wf(),
        ensures
            match r {
                Ok(_) => all_physical(self@.scheme, all_cells(self@.cells)),
                Err(e) => exists|k: int|
                    {
                        &&& #[trigger] first_bad(self@.scheme, all_cells(self@.cells), k)
                        &&& e matches Euler2dError::NonPhysical { stage: s, step, j, i } && s
                            == stage && step == self@.steps && j == k / self@.n_x as int && i == k
                            % self@.n_x as int
                    },
            },
    {
        let cells: &[Conserved2d<K::Real>] = self.cells();
        match find_bad(&self.scheme, cells) {
            Some(k) => {
                let n_x: usize = self.cells.width();
                let j: usize = k / n_x;
                let i: usize = k % n_x;
                proof {
                    assert(first_bad(self@.scheme, all_cells(self@.cells), k as int));
                }
                Err(Euler2dError::NonPhysical { stage, step: self.step_count, j, i })
            },
            None => Ok(()),
        }
    }

    /// The geometric source on its own, as a forward update. Only the split
    /// contrast scheme takes it.
    fn apply_split_geometric_source(&mut self, dt: K::Real) -> (r: Result<(), Euler2dError>)
        requires
            old(self).wf(),
        ensures
            final(self).wf(),
            is_mapping(
                old(self)@,
                pushed(old(self)@.scheme, dt),
                Stage2d::SplitGeometricSource,
                final(self)@,
                r,
            ),
    {
        let ghost pre = self@;
        let ghost f = pushed(pre.scheme, dt);
        let n_r: usize = self.cells.height();
        let n_x: usize = self.cells.width();
        for j in 0..n_r
            invariant
                pre == old(self)@,
                f == pushed(pre.scheme, dt),
                n_r == pre.cells.len(),
                n_x == pre.n_x,
                self.wf(),
                self@ == (Domain2d { cells: self@.cells, ..pre }),
                self@.cells.len() == n_r,
                forall|l: int, i: int|
                    #![trigger self@.cells[l][i]]
                    0 <= l < n_r && 0 <= i < n_x ==> if l < j {
                        f(l, i, pre.cells[l][i], self@.cells[l][i])
                    } else {
                        self@.cells[l][i] == pre.cells[l][i]
                    },
        {
            let r: K::Real = self.scheme.r_centre(j);
            for i in 0..n_x
                invariant
                    j < n_r,
                    pre == old(self)@,
                    f == pushed(pre.scheme, dt),
                    n_r == pre.cells.len(),
                    n_x == pre.n_x,
                    self.wf(),
                    self@ == (Domain2d { cells: self@.cells, ..pre }),
                    self@.cells.len() == n_r,
                    call_ensures(K::r_centre, (&pre.scheme, j), r),
                    forall|l: int, k: int|
                        #![trigger self@.cells[l][k]]
                        0 <= l < n_r && 0 <= k < n_x ==> if l < j || (l == j && k < i) {
                            f(l, k, pre.cells[l][k], self@.cells[l][k])
                        } else {
                            self@.cells[l][k] == pre.cells[l][k]
                        },
            {
                let u: Conserved2d<K::Real> = *self.cells.at(j, i);
                let v: Conserved2d<K::Real> = self.scheme.push_outward(dt, u, r);
                let ghost before = self@.cells;
                self.cells.set(j, i, v);
                proof {
                    assert(f(j as int, i as int, pre.cells[j as int][i as int], v));
                    assert forall|l: int, k: int|
                        #![trigger self@.cells[l][k]]
                        0 <= l < n_r && 0 <= k < n_x implies if l < j || (l == j && k < i + 1) {
                        f(l, k, pre.cells[l][k], self@.cells[l][k])
                    } else {
                        self@.cells[l][k] == pre.cells[l][k]
                    } by {
                        if !(l == j && k == i) {
                            assert(self@.cells[l][k] == before[l][k]);
                        }
                    }
                }
            }
        }
        proof {
            assert(are_mapped::<K>(pre.cells, f, self@.cells));
        }
        self.assert_physical(Stage2d::SplitGeometricSource)
    }

    /// Let the source `source(j, i, r, x)` act for `dt` without a flux update:
    /// one half of a symmetric split.
    pub fn add_energy<F: Fn(usize, usize, K::Real, K::Real) -> K::Real>(
        &mut self,
        dt: K::Real,
        source: F,
    ) -> (r: Result<(), Euler2dError>)
        requires
            old(self).wf(),
            forall|j: usize, i: usize, r: K::Real, x: K::Real|
                j < old(self)@.cells.len() && i < old(self)@.n_x ==> #[trigger] call_requires(
                    source,
                    (j, i, r, x),
                ),
        ensures
            final(self).wf(),
            is_heating_outcome(old(self)@, dt, rates_of(source), final(self)@, r),
    {
        if !self.scheme.is_source_interval(dt) {
            return Err(Euler2dError::BadSourceInterval);
        }
        let ghost pre = self@;
        let ghost rates = rates_of::<K::Real, F>(source);
        let ghost f = heated(pre.scheme, dt, rates);
        let n_r: usize = self.cells.height();
        let n_x: usize = self.cells.width();
        for j in 0..n_r
            invariant
                pre == old(self)@,
                rates == rates_of::<K::Real, F>(source),
                f == heated(pre.scheme, dt, rates),
                n_r == pre.cells.len(),
                n_x == pre.n_x,
                forall|j: usize, i: usize, r: K::Real, x: K::Real|
                    j < n_r && i < n_x ==> #[trigger] call_requires(source, (j, i, r, x)),
                self.wf(),
                self@ == (Domain2d { cells: self@.cells, ..pre }),
                self@.cells.len() == n_r,
                forall|l: int, i: int|
                    #![trigger self@.cells[l][i]]
                    0 <= l < n_r && 0 <= i < n_x ==> if l < j {
                        f(l, i, pre.cells[l][i], self@.cells[l][i])
                    } else {
                        self@.cells[l][i] == pre.cells[l][i]
                    },
        {
            for i in 0..n_x
                invariant
                    j < n_r,
                    pre == old(self)@,
                    rates == rates_of::<K::Real, F>(source),
                    f == heated(pre.scheme, dt, rates),
                    n_r == pre.cells.len(),
                    n_x == pre.n_x,
                    forall|j: usize, i: usize, r: K::Real, x: K::Real|
                        j < n_r && i < n_x ==> #[trigger] call_requires(source, (j, i, r, x)),
                    self.wf(),
                    self@ == (Domain2d { cells: self@.cells, ..pre }),
                    self@.cells.len() == n_r,
                    forall|l: int, k: int|
                        #![trigger self@.cells[l][k]]
                        0 <= l < n_r && 0 <= k < n_x ==> if l < j || (l == j && k < i) {
                            f(l, k, pre.cells[l][k], self@.cells[l][k])
                        } else {
                            self@.cells[l][k] == pre.cells[l][k]
                        },
            {
                let r: K::Real = self.scheme.r_centre(j);
                let x: K::Real = self.scheme.x_centre(i);
                let rate: K::Real = source(j, i, r, x);
                let u: Conserved2d<K::Real> = *self.cells.at(j, i);
                let energy: K::Real = self.scheme.heat(dt, u.energy, rate);
                let v: Conserved2d<K::Real> = Conserved2d {
                    rho: u.rho,
                    mom_r: u.mom_r,
                    mom_x: u.mom_x,
                    energy,
                };
                let ghost before = self@.cells;
                self.cells.set(j, i, v);
                proof {
                    assert(rates(j as int, i as int, r, x, rate));
                    assert(f(j as int, i as int, pre.cells[j as int][i as int], v));
                    assert forall|l: int, k: int|
                        #![trigger self@.cells[l][k]]
                        0 <= l < n_r && 0 <= k < n_x implies if l < j || (l == j && k < i + 1) {
                        f(l, k, pre.cells[l][k], self@.cells[l][k])
                    } else {
                        self@.cells[l][k] == pre.cells[l][k]
                    } by {
                        if !(l == j && k == i) {
                            assert(self@.cells[l][k] == before[l][k]);
                        }
                    }
                }
            }
        }
        proof {
            assert(are_mapped::<K>(pre.cells, f, self@.cells));
        }
        self.assert_physical(Stage2d::EnergySource)
    }

    /// One symmetric step of length `dt`.
    fn step_inner(&mut self, dt: K::Real, flips: bool, well_balanced: bool) -> (r: Result<
        (),
        Euler2dError,
    >)
        requires
            old(self).wf(),
            old(self)@.steps < usize::MAX,
        ensures
            final(self).wf(),
            is_step_outcome(old(self)@, dt, flips, well_balanced, final(self)@, r),
            r is Ok ==> final(self)@.steps == old(self)@.steps + 1,
    {
        if !self.scheme.is_positive(dt) {
            return Err(Euler2dError::BadStep { step: self.step_count });
        }
        let limit: K::Real = match self.stable_dt() {
            Ok(limit) => limit,
            Err(e) => {
                return Err(e);
            },
        };
        if self.scheme.violates(dt, limit) {
            return Err(Euler2dError::CflViolation { step: self.step_count });
        }
        let ghost pre = self@;
        proof {
            assert(is_admitted(pre, dt));
        }
        let half: K::Real = self.scheme.half(dt);
        match self.sweep_r(half, flips, well_balanced) {
            Ok(_) => {},
            Err(e) => {
                proof {
                    let p = self@;
                    assert(is_split_step(
                        pre,
                        dt,
                        flips,
                        well_balanced,
                        half,
                        p,
                        p,
                        p,
                        p,
                        p,
                        Err(e),
                    ));
                }
                return Err(e);
            },
        }
        let ghost a = self@;
        match self.sweep_x(dt) {
            Ok(_) => {},
            Err(e) => {
                proof {
                    let p = self@;
                    assert(is_split_step(
                        pre,
                        dt,
                        flips,
                        well_balanced,
                        half,
                        a,
                        p,
                        p,
                        p,
                        p,
                        Err(e),
                    ));
                }
                return Err(e);
            },
        }
        let ghost b = self@;
        match self.sweep_r(half, flips, well_balanced) {
            Ok(_) => {},
            Err(e) => {
                proof {
                    let p = self@;
                    assert(is_split_step(
                        pre,
                        dt,
                        flips,
                        well_balanced,
                        half,
                        a,
                        b,
                        p,
                        p,
                        p,
                        Err(e),
                    ));
                }
                return Err(e);
            },
        }
        let ghost c = self@;
        if !well_balanced && self.geometry == Geometry::Axisymmetric {
            match self.apply_split_geometric_source(dt) {
                Ok(_) => {},
                Err(e) => {
                    proof {
                        let p = self@;
                        assert(is_split_step(
                            pre,
                            dt,
                            flips,
                            well_balanced,
                            half,
                            a,
                            b,
                            c,
                            p,
                            p,
                            Err(e),
                        ));
                    }
                    return Err(e);
                },
            }
        }
        let ghost d = self@;
        self.time = self.scheme.plus(self.time, dt);
        self.step_count = self.step_count + 1;
        proof {
            assert(is_split_step(
                pre,
                dt,
                flips,
                well_balanced,
                half,
                a,
                b,
                c,
                d,
                self@,
                Ok(()),
            ));
        }
        Ok(())
    }

    /// Advance by `dt` without a source.
    pub fn step(&mut self, dt: K::Real) -> (r: Result<(), Euler2dError>)
        requires
            old(self).wf(),
            old(self)@.steps < usize::MAX,
        ensures
            final(self).wf(),
            is_step_outcome(old(self)@, dt, true, true, final(self)@, r),
            r is Ok ==> final(self)@.steps == old(self)@.steps + 1,
    {
        self.step_inner(dt, true, true)
    }

    /// [`Euler2d::step`] with the ghost parity of mirroring radial edges broken:
    /// the contrast that shows what the parity is for. Not for a model.
    pub fn step_with_even_parity_axis_for_gate_contrast(&mut self, dt: K::Real) -> (r: Result<
        (),
        Euler2dError,
    >)
        requires
            old(self).wf(),
            old(self)@.steps < usize::MAX,
        ensures
            final(self).wf(),
            is_step_outcome(old(self)@, dt, false, true, final(self)@, r),
            r is Ok ==> final(self)@.steps == old(self)@.steps + 1,
    {
        self.step_inner(dt, false, true)
    }

    /// [`Euler2d::step`] with the geometric source split out of the sweep: the
    /// first-order contrast. Not for a model.
    pub fn step_with_split_geometric_source_for_gate_contrast(&mut self, dt: K::Real) -> (r: Result<
        (),
        Euler2dError,
    >)
        requires
            old(self).wf(),
            old(self)@.steps < usize::MAX,
        ensures
            final(self).wf(),
            is_step_outcome(old(self)@, dt, true, false, final(self)@, r),
            r is Ok ==> final(self)@.steps == old(self)@.steps + 1,
    {
        self.step_inner(dt, true, false)
    }

    /// Advance by `dt`, then let the source act for `dt`. First order in time;
    /// the second-order coupling is a half-interval of [`Euler2d::add_energy`]
    /// on either side of [`Euler2d::step`].
    pub fn step_with_source<F: Fn(usize, usize, K::Real, K::Real) -> K::Real>(
        &mut self,
        dt: K::Real,
        source: F,
    ) -> (r: Result<(), Euler2dError>)
        requires
            old(self).wf(),
            old(self)@.steps < usize::MAX,
            forall|j: usize, i: usize, r: K::Real, x: K::Real|
                j < old(self)@.cells.len() && i < old(self)@.n_x ==> #[trigger] call_requires(
                    source,
                    (j, i, r, x),
                ),
        ensures
            final(self).wf(),
            r is Err && is_step_outcome(old(self)@, dt, true, true, final(self)@, r) || exists|
                mid: Domain2d<K>,
            |
                #[trigger] is_step_outcome(old(self)@, dt, true, true, mid, Ok(()))
                    && is_heating_outcome(mid, dt, rates_of(source), final(self)@, r),
    {
        let stepped: Result<(), Euler2dError> = self.step(dt);
        match stepped {
            Ok(_) => {},
            Err(e) => {
                return Err(e);
            },
        }
        proof {
            let unit: () = stepped->Ok_0;
            assert(unit == ());
            assert(stepped == Ok::<(), Euler2dError>(()));
            lemma_step_keeps_shape(old(self)@, dt, true, true, self@);
        }
        self.add_energy(dt, source)
    }

    /// March to `t_end`, sizing every step from the current signal speeds and
    /// clipping the last one. A clipped step that is not positive ends the
    /// march.
    pub fn advance_to(&mut self, t_end: K::Real) -> (r: Result<(), Euler2dError>)
        requires
            old(self).wf(),
        ensures
            final(self).wf(),
            exists|trace: Seq<Domain2d<K>>|
                {
                    &&& #[trigger] is_march(old(self)@, t_end, trace)
                    &&& is_march_end(trace.last(), t_end, final(self)@, r)
                },
    {
        let ghost mut trace: Seq<Domain2d<K>> = seq![self@];
        loop
            invariant
                self.wf(),
                is_march(old(self)@, t_end, trace),
                trace.last() == self@,
            decreases usize::MAX - self.step_count,
        {
            if !self.scheme.is_before(self.time, t_end) {
                return Ok(());
            }
            if self.step_count == usize::MAX {
                return Err(Euler2dError::StepsExhausted);
            }
            let limit: K::Real = match self.stable_dt() {
                Ok(limit) => limit,
                Err(e) => {
                    return Err(e);
                },
            };
            let dt: K::Real = self.scheme.clip(limit, self.time, t_end);
            let ghost pre = self@;
            proof {
                assert(is_clipped(pre, t_end, dt));
            }
            if !self.scheme.is_positive(dt) {
                return Ok(());
            }
            let stepped: Result<(), Euler2dError> = self.step(dt);
            match stepped {
                Ok(_) => {},
                Err(e) => {
                    proof {
                        assert(is_march_end(pre, t_end, self@, Err(e)));
                    }
                    return Err(e);
                },
            }
            proof {
                let unit: () = stepped->Ok_0;
                assert(unit == ());
                assert(stepped == Ok::<(), Euler2dError>(()));
                assert(is_marched(pre, t_end, self@));
                let longer = trace.push(self@);
                assert forall|i: int| 0 <= i < longer.len() - 1 implies is_marched(
                    #[trigger] longer[i],
                    t_end,
                    longer[i + 1],
                ) by {
                    if i < trace.len() - 1 {
                        assert(is_marched(trace[i], t_end, trace[i + 1]));
                    }
                }
                trace = longer;
            }
        }
    }
}

/// A completed step keeps the shape of the domain.
proof fn lemma_step_keeps_shape<K: Scheme2d>(
    pre: Domain2d<K>,
    dt: K::Real,
    flips: bool,
    well_balanced: bool,
    post: Domain2d<K>,
)
    requires
        is_step_outcome(pre, dt, flips, well_balanced, post, Ok(())),
    ensures
        post.n_x == pre.n_x,
        post.cells.len() == pre.cells.len(),
        post.scheme == pre.scheme,
{
}

/// `dt` is the stable step, clipped at `t_end`.
pub open spec fn is_clipped<K: Scheme2d>(pre: Domain2d<K>, t_end: K::Real, dt: K::Real) -> bool {
    exists|limit: K::Real|
        is_stable_dt(pre, Ok(limit)) && #[trigger] call_ensures(
            K::clip,
            (&pre.scheme, limit, pre.time, t_end),
            dt,
        )
}

/// One step of a march towards `t_end`.
pub open spec fn is_marched<K: Scheme2d>(
    pre: Domain2d<K>,
    t_end: K::Real,
    post: Domain2d<K>,
) -> bool {
    &&& call_ensures(K::is_before, (&pre.scheme, pre.time, t_end), true)
    &&& exists|dt: K::Real|
        {
            &&& #[trigger] is_clipped(pre, t_end, dt)
            &&& call_ensures(K::is_positive, (&pre.scheme, dt), true)
            &&& is_step_outcome(pre, dt, true, true, post, Ok(()))
        }
}

/// The domains that a march from `pre` towards `t_end` passes through.
pub open spec fn is_march<K: Scheme2d>(
    pre: Domain2d<K>,
    t_end: K::Real,
    trace: Seq<Domain2d<K>>,
) -> bool {
    &&& trace.len() > 0
    &&& trace[0] == pre
    &&& forall|i: int|
        0 <= i < trace.len() - 1 ==> is_marched(#[trigger] trace[i], t_end, trace[i + 1])
}

/// Why a march whose last completed step gave `last` ends, leaving `post`.
pub open spec fn is_march_end<K: Scheme2d>(
    last: Domain2d<K>,
    t_end: K::Real,
    post: Domain2d<K>,
    r: Result<(), Euler2dError>,
) -> bool {
    let going = call_ensures(K::is_before, (&last.scheme, last.time, t_end), true);
    match r {
        Ok(_) => {
            &&& post == last
            &&& {
                ||| call_ensures(K::is_before, (&last.scheme, last.time, t_end), false)
                ||| going && exists|dt: K::Real| #[trigger]
                    is_clipped(last, t_end, dt) && call_ensures(
                        K::is_positive,
                        (&last.scheme, dt),
                        false,
                    )
            }
        },
        Err(e) => {
            &&& going
            &&& {
                ||| post == last && e == Euler2dError::StepsExhausted && last.steps == usize::MAX
                ||| post == last && is_stable_dt(last, Err(e))
                ||| exists|dt: K::Real| #[trigger]
                    is_clipped(last, t_end, dt) && is_step_outcome(last, dt, true, true, post, r)
            }
        },
    }
}

/// `states[k]` is `initial` at the centre of the cell stored at `k`.
pub open spec fn are_samples<K: Scheme2d, F: Fn(K::Real, K::Real) -> Primitive2d<K::Real>>(
    scheme: K,
    initial: F,
    n_x: int,
    n: int,
    states: Seq<Primitive2d<K::Real>>,
) -> bool {
    &&& states.len() == n
    &&& forall|k: int|
        0 <= k < n ==> is_sample::<K, F>(scheme, initial, k / n_x, k % n_x, #[trigger] states[k])
}

pub open spec fn is_sample<K: Scheme2d, F: Fn(K::Real, K::Real) -> Primitive2d<K::Real>>(
    scheme: K,
    initial: F,
    j: int,
    i: int,
    w: Primitive2d<K::Real>,
) -> bool {
    exists|r: K::Real, x: K::Real|
        {
            &&& #[trigger] call_ensures(K::r_centre, (&scheme, j as usize), r)
            &&& #[trigger] call_ensures(K::x_centre, (&scheme, i as usize), x)
            &&& call_ensures(initial, (r, x), w)
        }
}

/// `run[i]` is the sum of a quantity over the first `i` cells of a ring.
pub open spec fn is_ring_run<K: Scheme2d>(
    scheme: K,
    part: spec_fn(Conserved2d<K::Real>, K::Real) -> bool,
    ring: Seq<Conserved2d<K::Real>>,
    run: Seq<K::Real>,
) -> bool {
    &&& run.len() == ring.len() + 1
    &&& call_ensures(K::zero, (&scheme,), run[0])
    &&& forall|i: int|
        #![trigger ring[i]]
        0 <= i < ring.len() ==> is_added(scheme, part, ring[i], run[i], run[i + 1])
}

/// `after` is `before` plus the quantity of one cell.
pub open spec fn is_added<K: Scheme2d>(
    scheme: K,
    part: spec_fn(Conserved2d<K::Real>, K::Real) -> bool,
    u: Conserved2d<K::Real>,
    before: K::Real,
    after: K::Real,
) -> bool {
    exists|q: K::Real|
        #[trigger] part(u, q) && call_ensures(K::plus, (&scheme, before, q), after)
}

/// `after` is `before` plus the sum over one ring, weighted by the ring's
/// volume and the axial spacing.
pub open spec fn is_ring_added<K: Scheme2d>(
    scheme: K,
    part: spec_fn(Conserved2d<K::Real>, K::Real) -> bool,
    ring: Seq<Conserved2d<K::Real>>,
    volume: K::Real,
    before: K::Real,
    after: K::Real,
) -> bool {
    exists|run: Seq<K::Real>, dx: K::Real, weight: K::Real|
        {
            &&& #[trigger] is_ring_run(scheme, part, ring, run)
            &&& call_ensures(K::dx, (&scheme,), dx)
            &&& #[trigger] call_ensures(K::times, (&scheme, volume, dx), weight)
            &&& is_weighted_sum(scheme, before, run.last(), weight, after)
        }
}

/// `run[j]` is the integral over the first `j` rings.
pub open spec fn is_integral_run<K: Scheme2d>(
    pre: Domain2d<K>,
    part: spec_fn(Conserved2d<K::Real>, K::Real) -> bool,
    n: int,
    run: Seq<K::Real>,
) -> bool {
    &&& run.len() == n + 1
    &&& call_ensures(K::zero, (&pre.scheme,), run[0])
    &&& forall|j: int|
        #![trigger pre.cells[j]]
        0 <= j < n ==> is_ring_added(
            pre.scheme,
            part,
            pre.cells[j],
            pre.volumes[N_GHOST + j],
            run[j],
            run[j + 1],
        )
}

/// `total` is the domain integral of a per-cell quantity.
pub open spec fn is_integral<K: Scheme2d>(
    pre: Domain2d<K>,
    part: spec_fn(Conserved2d<K::Real>, K::Real) -> bool,
    total: K::Real,
) -> bool {
    exists|run: Seq<K::Real>|
        #[trigger] is_integral_run(pre, part, pre.cells.len() as int, run) && run.last() == total
}

impl<K: Scheme2d> Euler2d<K> {
    /// Sample `initial` at the cell centres.
    pub fn from_fn<F: Fn(K::Real, K::Real) -> Primitive2d<K::Real>>(
        scheme: K,
        geometry: Geometry,
        boundaries: [Boundary2d; 4],
        n_r: usize,
        n_x: usize,
        initial: F,
    ) -> (r: Result<Self, Euler2dError>)
        requires
            n_r + 2 * N_GHOST + 1 <= isize::MAX,
            n_x + 2 * N_GHOST + 1 <= isize::MAX,
            n_r * n_x <= usize::MAX,
            forall|r: K::Real, x: K::Real| #[trigger] call_requires(initial, (r, x)),
        ensures
            exists|states: Seq<Primitive2d<K::Real>>| #[trigger]
                are_samples::<K, F>(scheme, initial, n_x as int, n_r * n_x, states) && is_build(
                    scheme,
                    geometry,
                    boundaries,
                    n_r,
                    n_x,
                    states,
                    r,
                ),
    {
        let n: usize = n_r * n_x;
        let mut states: Vec<Primitive2d<K::Real>> = Vec::with_capacity(n);
        for k in 0..n
            invariant
                n == n_r * n_x,
                forall|r: K::Real, x: K::Real| #[trigger] call_requires(initial, (r, x)),
                are_samples::<K, F>(scheme, initial, n_x as int, k as int, states@),
        {
            proof {
                assert(n_x > 0) by (nonlinear_arith)
                    requires
                        n_r * n_x > 0,
                        n_x >= 0,
                ;
            }
            let j: usize = k / n_x;
            let i: usize = k % n_x;
            let r: K::Real = scheme.r_centre(j);
            let x: K::Real = scheme.x_centre(i);
            let w: Primitive2d<K::Real> = initial(r, x);
            proof {
                assert(is_sample::<K, F>(scheme, initial, k as int / n_x as int, k as int % n_x as int, w));
            }
            states.push(w);
        }
        Self::new(scheme, geometry, boundaries, n_r, n_x, states.as_slice())
    }

    /// Sum of a quantity over one ring.
    fn ring_sum<Q: Fn(Conserved2d<K::Real>) -> K::Real>(&self, j: usize, quantity: &Q) -> (sum: K::Real)
        requires
            self.wf(),
            j < self@.cells.len(),
            forall|u: Conserved2d<K::Real>| #[trigger] call_requires(*quantity, (u,)),
        ensures
            exists|run: Seq<K::Real>|
                #[trigger] is_ring_run(
                    self@.scheme,
                    parts_of::<K, Q>(*quantity),
                    self@.cells[j as int],
                    run,
                ) && run.last() == sum,
    {
        let ghost part = parts_of::<K, Q>(*quantity);
        let ghost ring = self@.cells[j as int];
        let mut sum: K::Real = self.scheme.zero();
        let ghost mut run: Seq<K::Real> = seq![sum];
        let n: usize = self.cells.width();
        for i in 0..n
            invariant
                self.wf(),
                n == self@.n_x,
                j < self@.cells.len(),
                forall|u: Conserved2d<K::Real>| #[trigger] call_requires(*quantity, (u,)),
                part == parts_of::<K, Q>(*quantity),
                ring == self@.cells[j as int],
                run.last() == sum,
                is_ring_run(self@.scheme, part, ring.subrange(0, i as int), run),
        {
            let u: Conserved2d<K::Real> = *self.cells.at(j, i);
            let q: K::Real = quantity(u);
            let next: K::Real = self.scheme.plus(sum, q);
            proof {
                let shorter = ring.subrange(0, i as int);
                let longer = ring.subrange(0, i + 1);
                assert(part(u, q));
                assert(is_added(self@.scheme, part, u, sum, next));
                let run2 = run.push(next);
                assert forall|k: int| 0 <= k < longer.len() implies is_added(
                    self@.scheme,
                    part,
                    #[trigger] longer[k],
                    run2[k],
                    run2[k + 1],
                ) by {
                    if k < i {
                        assert(longer[k] == shorter[k]);
                    }
                }
                run = run2;
            }
            sum = next;
        }
        proof {
            assert(ring.subrange(0, ring.len() as int) =~= ring);
        }
        sum
    }

    /// Domain integral of a per-cell quantity, ring by ring.
    pub fn integrate<Q: Fn(Conserved2d<K::Real>) -> K::Real>(&self, quantity: Q) -> (total: K::Real)
        requires
            self.wf(),
            forall|u: Conserved2d<K::Real>| #[trigger] call_requires(quantity, (u,)),
        ensures
            is_integral(self@, parts_of::<K, Q>(quantity), total),
    {
        let ghost part = parts_of::<K, Q>(quantity);
        let mut total: K::Real = self.scheme.zero();
        let ghost mut run: Seq<K::Real> = seq![total];
        let n: usize = self.cells.height();
        for j in 0..n
            invariant
                self.wf(),
                n == self@.cells.len(),
                forall|u: Conserved2d<K::Real>| #[trigger] call_requires(quantity, (u,)),
                part == parts_of::<K, Q>(quantity),
                run.last() == total,
                is_integral_run(self@, part, j as int, run),
        {
            let dx: K::Real = self.scheme.dx();
            let weight: K::Real = self.scheme.times(self.r_volumes[N_GHOST + j], dx);
            let sum: K::Real = self.ring_sum(j, &quantity);
            let q: K::Real = self.scheme.times(sum, weight);
            let next: K::Real = self.scheme.plus(total, q);
            proof {
                assert(is_weighted_sum(self@.scheme, total, sum, weight, next));
                assert(is_ring_added(
                    self@.scheme,
                    part,
                    self@.cells[j as int],
                    self@.volumes[N_GHOST + j],
                    total,
                    next,
                ));
                let run2 = run.push(next);
                assert forall|l: int|
                    #![trigger self@.cells[l]]
                    0 <= l < j + 1 implies is_ring_added(
                    self@.scheme,
                    part,
                    self@.cells[l],
                    self@.volumes[N_GHOST + l],
                    run2[l],
                    run2[l + 1],
                ) by {
                    if l < j {
                        assert(run2[l] == run[l] && run2[l + 1] == run[l + 1]);
                    }
                }
                run = run2;
            }
            total = next;
        }
        total
    }

    /// Domain integral of the density.
    pub fn total_mass(&self) -> (total: K::Real)
        requires
            self.wf(),
        ensures
            is_integral(self@, |u: Conserved2d<K::Real>, q: K::Real| q == u.rho, total),
    {
        let rho = |u: Conserved2d<K::Real>| -> (q: K::Real)
            ensures
                q == u.rho,
            { u.rho };
        let total: K::Real = self.integrate(rho);
        proof {
            lemma_integral_widens(
                self@,
                parts_of::<K, _>(rho),
                |u: Conserved2d<K::Real>, q: K::Real| q == u.rho,
                total,
            );
        }
        total
    }

    /// Domain integral of the total energy density.
    pub fn total_energy(&self) -> (total: K::Real)
        requires
            self.wf(),
        ensures
            is_integral(self@, energies(), total),
    {
        let energy = |u: Conserved2d<K::Real>| -> (q: K::Real)
            ensures
                q == u.energy,
            { u.energy };
        let total: K::Real = self.integrate(energy);
        proof {
            lemma_integral_widens(
                self@,
                parts_of::<K, _>(energy),
                energies(),
                total,
            );
        }
        total
    }

    /// Domain integral of the axial momentum density, which is conserved.
    pub fn total_axial_momentum(&self) -> (total: K::Real)
        requires
            self.wf(),
        ensures
            is_integral(self@, |u: Conserved2d<K::Real>, q: K::Real| q == u.mom_x, total),
    {
        let mom_x = |u: Conserved2d<K::Real>| -> (q: K::Real)
            ensures
                q == u.mom_x,
            { u.mom_x };
        let total: K::Real = self.integrate(mom_x);
        proof {
            lemma_integral_widens(
                self@,
                parts_of::<K, _>(mom_x),
                |u: Conserved2d<K::Real>, q: K::Real| q == u.mom_x,
                total,
            );
        }
        total
    }

    /// Domain integral of the radial momentum density, which the geometric
    /// source changes.
    pub fn total_radial_momentum(&self) -> (total: K::Real)
        requires
            self.wf(),
        ensures
            is_integral(self@, |u: Conserved2d<K::Real>, q: K::Real| q == u.mom_r, total),
    {
        let mom_r = |u: Conserved2d<K::Real>| -> (q: K::Real)
            ensures
                q == u.mom_r,
            { u.mom_r };
        let total: K::Real = self.integrate(mom_r);
        proof {
            lemma_integral_widens(
                self@,
                parts_of::<K, _>(mom_r),
                |u: Conserved2d<K::Real>, q: K::Real| q == u.mom_r,
                total,
            );
        }
        total
    }
}

/// The energy density of a cell.
pub open spec fn energies<R>() -> spec_fn(Conserved2d<R>, R) -> bool {
    |u: Conserved2d<R>, q: R| q == u.energy
}

/// The values that a quantity closure may give for a cell.
pub open spec fn parts_of<K: Scheme2d, Q: Fn(Conserved2d<K::Real>) -> K::Real>(
    quantity: Q,
) -> spec_fn(Conserved2d<K::Real>, K::Real) -> bool {
    |u: Conserved2d<K::Real>, q: K::Real| call_ensures(quantity, (u,), q)
}

/// An integral of a quantity is an integral of any that allows its values.
proof fn lemma_integral_widens<K: Scheme2d>(
    pre: Domain2d<K>,
    narrow: spec_fn(Conserved2d<K::Real>, K::Real) -> bool,
    wide: spec_fn(Conserved2d<K::Real>, K::Real) -> bool,
    total: K::Real,
)
    requires
        forall|u: Conserved2d<K::Real>, q: K::Real| #[trigger] narrow(u, q) ==> wide(u, q),
        is_integral(pre, narrow, total),
    ensures
        is_integral(pre, wide, total),
{
    let n = pre.cells.len() as int;
    let run = choose|run: Seq<K::Real>|
        #[trigger] is_integral_run(pre, narrow, n, run) && run.last() == total;
    assert forall|j: int|
        #![trigger pre.cells[j]]
        0 <= j < n implies is_ring_added(
        pre.scheme,
        wide,
        pre.cells[j],
        pre.volumes[N_GHOST + j],
        run[j],
        run[j + 1],
    ) by {
        let ring = pre.cells[j];
        let volume = pre.volumes[N_GHOST + j];
        assert(is_ring_added(pre.scheme, narrow, ring, volume, run[j], run[j + 1]));
        let (sums, dx, weight) = choose|sums: Seq<K::Real>, dx: K::Real, weight: K::Real|
            {
                &&& #[trigger] is_ring_run(pre.scheme, narrow, ring, sums)
                &&& call_ensures(K::dx, (&pre.scheme,), dx)
                &&& #[trigger] call_ensures(K::times, (&pre.scheme, volume, dx), weight)
                &&& is_weighted_sum(pre.scheme, run[j], sums.last(), weight, run[j + 1])
            };
        assert forall|i: int| 0 <= i < ring.len() implies is_added(
            pre.scheme,
            wide,
            #[trigger] ring[i],
            sums[i],
            sums[i + 1],
        ) by {
            assert(is_added(pre.scheme, narrow, ring[i], sums[i], sums[i + 1]));
            let q = choose|q: K::Real|
                #[trigger] narrow(ring[i], q) && call_ensures(
                    K::plus,
                    (&pre.scheme, sums[i], q),
                    sums[i + 1],
                );
            assert(wide(ring[i], q));
        }
        assert(is_ring_run(pre.scheme, wide, ring, sums));
    }
    assert(is_integral_run(pre, wide, n, run));
}

/// An axial sweep keeps the mesh.
pub(crate) proof fn lemma_x_sweep_keeps_shape<K: Scheme2d>(pre: Domain2d<K>, dt: K::Real, post: Domain2d<K>)
    requires
        pre.valid(),
        is_x_sweep(pre, dt, post, Ok(())),
    ensures
        post.valid(),
        post == (Domain2d { cells: post.cells, escaped: post.escaped, ..pre }),
        post.cells.len() == pre.cells.len(),
{
    let (one, dx, lines, run) = choose|
        one: K::Real,
        dx: K::Real,
        lines: Seq<(Seq<Conserved2d<K::Real>>, K::Real)>,
        run: Seq<K::Real>,
    |
        {
            &&& #[trigger] call_ensures(K::one, (&pre.scheme,), one)
            &&& #[trigger] call_ensures(K::dx, (&pre.scheme,), dx)
            &&& #[trigger] are_swept(
                pre.scheme,
                axial_sweeps(pre, dt, one, dx),
                ring_weights(pre),
                lines,
                run,
            )
            &&& is_sweep_end(
                pre,
                axial_sweeps(pre, dt, one, dx),
                pre.cells.len() as int,
                with_rows(pre.cells, lines),
                lines,
                run,
                post,
                Ok(()),
            )
        };
    assert forall|j: int| 0 <= j < post.cells.len() implies #[trigger] post.cells[j].len()
        == pre.n_x by {
        assert(pre.cells[j].len() == pre.n_x);
        assert(is_line_outcome(axial_sweeps(pre, dt, one, dx)(j), Ok(lines[j])));
    }
}

} // verus!

//! One-dimensional compressible flow: the MUSCL-Hancock driver.
//!
//! A domain is a line of cells with [`N_GHOST`] ghost cells per side. One step
//! pads the line, reconstructs the two faces of every cell that has both
//! neighbours, solves one Riemann problem per interface and takes the flux
//! difference over each cell. The driver decides what is combined with what,
//! in which order the guards run, and which cell a refusal names. Faces, fluxes
//! and updates are those of [`crate::riemann`]; the single operations on numbers
//! and states belong to a [`Scheme1d`].
//!
//! A non-physical state is never clamped: it is refused, and the refusal names
//! the stage, the step and the cell.
use crate::riemann::{
    are_hancock_faces, cancels, flux_update, hancock_faces, hllc_flux, is_exact_in, is_flux_update,
    is_hllc, is_reproducible, lemma_faces_are_one, lemma_flux_update_is_one, lemma_hllc_is_one,
    lemma_uniform_faces, lemma_uniform_flux, lemma_update_moves, Acoustics,
};
use vstd::prelude::*;

verus! {

/// Ghost cells per side: a slope needs both neighbours and an interface needs
/// a slope on both of its sides.
pub const N_GHOST: usize = 2;

/// What the solver does at the domain ends.
#[derive(Debug, Clone, Copy, PartialEq, Eq, Structural)]
pub enum Boundary {
    /// Zero-gradient outflow.
    Transmissive,
    /// Wrap-around.
    Periodic,
}

/// State of a one-dimensional flow as a caller states it: density, velocity and
/// pressure.
#[derive(Debug, Clone, Copy, PartialEq)]
pub struct Primitive<R> {
    pub rho: R,
    pub u: R,
    pub p: R,
}

/// Conserved state of a one-dimensional flow: density, momentum density and
/// total energy density.
#[derive(Debug, Clone, Copy, PartialEq)]
pub struct Conserved<R> {
    pub rho: R,
    pub mom: R,
    pub energy: R,
}

impl<R: Copy> Conserved<R> {
    /// Combine two states component by component.
    pub fn zip<F: Fn(R, R) -> R>(self, other: Self, f: F) -> (out: Self)
        requires
            forall|a: R, b: R| #[trigger] call_requires(f, (a, b)),
        ensures
            call_ensures(f, (self.rho, other.rho), out.rho),
            call_ensures(f, (self.mom, other.mom), out.mom),
            call_ensures(f, (self.energy, other.energy), out.energy),
    {
        Conserved {
            rho: f(self.rho, other.rho),
            mom: f(self.mom, other.mom),
            energy: f(self.energy, other.energy),
        }
    }

    /// Map a state component by component.
    pub fn map<F: Fn(R) -> R>(self, f: F) -> (out: Self)
        requires
            forall|a: R| #[trigger] call_requires(f, (a,)),
        ensures
            call_ensures(f, (self.rho,), out.rho),
            call_ensures(f, (self.mom,), out.mom),
            call_ensures(f, (self.energy,), out.energy),
    {
        Conserved { rho: f(self.rho), mom: f(self.mom), energy: f(self.energy) }
    }
}

/// The arithmetic of a one-dimensional finite-volume scheme on a uniform line,
/// over that of the flow at its interfaces.
pub trait Scheme1d: Acoustics {
    /// Whether the mesh spacing is positive and finite.
    fn spacing_is_valid(&self) -> bool;

    /// Whether an initial state may enter the domain.
    fn admits(&self, w: Primitive<Self::Real>) -> bool;

    fn to_conserved(&self, w: Primitive<Self::Real>) -> Conserved<Self::Real>;

    fn to_primitive(&self, u: Conserved<Self::Real>) -> Primitive<Self::Real>;

    /// Whether density and pressure are positive and the velocity is finite.
    fn is_physical(&self, u: Conserved<Self::Real>) -> bool;

    /// Whether `x` is positive and finite.
    fn is_positive(&self, x: Self::Real) -> bool;

    /// Whether a source may act for `dt`: finite and not negative.
    fn is_source_interval(&self, dt: Self::Real) -> bool;

    /// The Courant number of a fresh domain, which is also the largest allowed.
    fn default_cfl(&self) -> Self::Real;

    fn cfl_is_valid(&self, cfl: Self::Real) -> bool;

    /// Signal speed of one cell.
    fn wave_speed(&self, u: Conserved<Self::Real>) -> Self::Real;

    /// Step for a Courant number and the largest signal speed.
    fn courant_step(&self, cfl: Self::Real, speed: Self::Real) -> Self::Real;

    /// Whether `dt` is beyond the stable step, round-off apart.
    fn violates(&self, dt: Self::Real, limit: Self::Real) -> bool;

    /// Whether `t` is still short of `t_end`.
    fn is_before(&self, t: Self::Real, t_end: Self::Real) -> bool;

    /// `dt`, clipped so that a step from `t` does not pass `t_end`.
    fn clip(&self, dt: Self::Real, t: Self::Real, t_end: Self::Real) -> Self::Real;

    /// Centre coordinate of cell `i`.
    fn x_centre(&self, i: usize) -> Self::Real;

    /// Share of a flux difference that acts on a cell in half of `dt`.
    fn half_weight(&self, dt: Self::Real) -> Self::Real;

    /// Share of a flux difference that acts on a cell in `dt`.
    fn weight(&self, dt: Self::Real) -> Self::Real;

    /// An energy density after a source of the given rate has acted for `dt`.
    fn heat(&self, dt: Self::Real, energy: Self::Real, rate: Self::Real) -> Self::Real;

    /// A sum over cells as a domain integral.
    fn integral(&self, sum: Self::Real) -> Self::Real;
}

/// Where in an update a state went bad.
#[derive(Debug, Clone, Copy, PartialEq, Eq, Structural)]
pub enum Stage {
    LeftFace,
    RightFace,
    ConservativeUpdate,
    EnergySource,
}

impl Stage {
    /// The stage's name in a report.
    pub fn name(self) -> (s: &'static str)
        ensures
            s@ == (match self {
                Stage::LeftFace => "MUSCL half-step (left face)"@,
                Stage::RightFace => "MUSCL half-step (right face)"@,
                Stage::ConservativeUpdate => "conservative update"@,
                Stage::EnergySource => "energy source"@,
            }),
    {
        match self {
            Stage::LeftFace => "MUSCL half-step (left face)",
            Stage::RightFace => "MUSCL half-step (right face)",
            Stage::ConservativeUpdate => "conservative update",
            Stage::EnergySource => "energy source",
        }
    }
}

/// Why a domain could not be built or advanced.
#[derive(Debug, Clone, Copy, PartialEq, Eq, Structural)]
pub enum EulerError {
    /// Fewer cells than the stencil needs.
    TooFewCells { cells: usize },
    /// The mesh spacing is not positive and finite.
    BadSpacing,
    /// The first initial state that is not physical.
    BadInitialState { index: usize },
    /// The Courant number is not in the allowed range.
    BadCfl,
    /// The step is not positive and finite.
    BadStep { step: usize },
    /// The source interval is negative or not finite.
    BadSourceInterval { step: usize },
    /// The largest signal speed is not positive and finite.
    NoWaveSpeed { step: usize },
    /// The step is longer than the stable one.
    CflViolation { step: usize },
    /// The first cell that a stage left non-physical, by its interior index.
    NonPhysical { stage: Stage, step: usize, cell: isize, is_ghost: bool },
    /// The step counter is full.
    StepsExhausted,
}

/// What a domain is, mathematically.
pub struct Domain1d<K: Scheme1d> {
    pub scheme: K,
    pub boundary: Boundary,
    pub cells: Seq<Conserved<K::Real>>,
    pub cfl: K::Real,
    pub time: K::Real,
    pub steps: nat,
}

/// Interior cell that fills position `k` of the padded line of `n` cells.
pub open spec fn ghost_source(boundary: Boundary, n: int, k: int) -> int {
    let i = k - N_GHOST;
    match boundary {
        Boundary::Transmissive => if i < 0 {
            0
        } else if i >= n {
            n - 1
        } else {
            i
        },
        Boundary::Periodic => if i < 0 {
            i + n
        } else if i >= n {
            i - n
        } else {
            i
        },
    }
}

/// A line of cells with its ghosts.
pub open spec fn ghosted<S>(cells: Seq<S>, boundary: Boundary) -> Seq<S> {
    Seq::new(
        (cells.len() + 2 * N_GHOST) as nat,
        |k: int| cells[ghost_source(boundary, cells.len() as int, k)],
    )
}

/// `faces` are the limited left and right faces of a cell, evolved by half of
/// `dt`.
pub open spec fn are_cell_faces<K: Scheme1d>(
    scheme: K,
    dt: K::Real,
    before: Conserved<K::Real>,
    cell: Conserved<K::Real>,
    after: Conserved<K::Real>,
    faces: (Conserved<K::Real>, Conserved<K::Real>),
) -> bool {
    exists|half: K::Real| #[trigger]
        call_ensures(K::half_weight, (&scheme, dt), half) && are_hancock_faces(
            scheme,
            half,
            before,
            cell,
            after,
            faces,
        )
}

/// The limited, half-step-evolved left and right faces of a cell.
pub fn cell_faces<K: Scheme1d>(
    scheme: &K,
    dt: K::Real,
    before: Conserved<K::Real>,
    cell: Conserved<K::Real>,
    after: Conserved<K::Real>,
) -> (faces: (Conserved<K::Real>, Conserved<K::Real>))
    ensures
        are_cell_faces(*scheme, dt, before, cell, after, faces),
{
    let half: K::Real = scheme.half_weight(dt);
    hancock_faces(scheme, half, before, cell, after)
}

/// `v` is the cell `u` after `dt`, given the fluxes through its two interfaces.
pub open spec fn is_advanced<K: Scheme1d>(
    scheme: K,
    dt: K::Real,
    u: Conserved<K::Real>,
    flux_lo: Conserved<K::Real>,
    flux_hi: Conserved<K::Real>,
    v: Conserved<K::Real>,
) -> bool {
    exists|weight: K::Real| #[trigger]
        call_ensures(K::weight, (&scheme, dt), weight) && is_flux_update(
            scheme,
            weight,
            u,
            flux_lo,
            flux_hi,
            v,
        )
}

/// A cell after `dt`, given the fluxes through its two interfaces.
pub fn advanced<K: Scheme1d>(
    scheme: &K,
    dt: K::Real,
    u: Conserved<K::Real>,
    flux_lo: Conserved<K::Real>,
    flux_hi: Conserved<K::Real>,
) -> (v: Conserved<K::Real>)
    ensures
        is_advanced(*scheme, dt, u, flux_lo, flux_hi, v),
{
    let weight: K::Real = scheme.weight(dt);
    flux_update(scheme, weight, u, flux_lo, flux_hi)
}

/// `faces[m]` are the left and right faces of cell `m + 1` of a padded line.
pub open spec fn are_faces<K: Scheme1d>(
    scheme: K,
    dt: K::Real,
    padded: Seq<Conserved<K::Real>>,
    faces: Seq<(Conserved<K::Real>, Conserved<K::Real>)>,
) -> bool {
    &&& faces.len() + 2 == padded.len()
    &&& forall|m: int|
        0 <= m < faces.len() ==> are_cell_faces(
            scheme,
            dt,
            padded[m],
            padded[m + 1],
            padded[m + 2],
            #[trigger] faces[m],
        )
}

/// `fluxes[j]` goes through the interface between faces `j` and `j + 1`.
pub open spec fn are_fluxes<K: Scheme1d>(
    scheme: K,
    faces: Seq<(Conserved<K::Real>, Conserved<K::Real>)>,
    fluxes: Seq<Conserved<K::Real>>,
) -> bool {
    &&& fluxes.len() + 1 == faces.len()
    &&& forall|j: int|
        0 <= j < fluxes.len() ==> is_hllc(scheme, faces[j].1, faces[j + 1].0, #[trigger] fluxes[j])
}

/// The rates that a source closure may give for a cell at a coordinate.
pub open spec fn rates_of<R, F: Fn(usize, R) -> R>(source: F) -> spec_fn(int, R, R) -> bool {
    |i: int, x: R, rate: R| call_ensures(source, (i as usize, x), rate)
}

/// The same rate everywhere.
pub open spec fn constant_rate<R>(value: R) -> spec_fn(int, R, R) -> bool {
    |i: int, x: R, rate: R| rate == value
}

/// `heated` is `cell` after the source has acted on cell `i` for `dt`.
pub open spec fn is_heated<K: Scheme1d>(
    scheme: K,
    dt: K::Real,
    rates: spec_fn(int, K::Real, K::Real) -> bool,
    i: int,
    cell: Conserved<K::Real>,
    heated: Conserved<K::Real>,
) -> bool {
    exists|x: K::Real, rate: K::Real|
        {
            &&& #[trigger] rates(i, x, rate)
            &&& call_ensures(K::x_centre, (&scheme, i as usize), x)
            &&& is_warmed(scheme, dt, cell, rate, heated)
        }
}

/// `v` is `u` after a source of the given rate has acted for `dt`: the energy is
/// another, the density and the momentum are kept.
pub open spec fn is_warmed<K: Scheme1d>(
    scheme: K,
    dt: K::Real,
    u: Conserved<K::Real>,
    rate: K::Real,
    v: Conserved<K::Real>,
) -> bool {
    &&& v == (Conserved { energy: v.energy, ..u })
    &&& call_ensures(K::heat, (&scheme, dt, u.energy, rate), v.energy)
}

/// A cell after a source of the given rate has acted for `dt`.
fn warm<K: Scheme1d>(scheme: &K, dt: K::Real, u: Conserved<K::Real>, rate: K::Real) -> (v: Conserved<
    K::Real,
>)
    ensures
        is_warmed(*scheme, dt, u, rate, v),
{
    Conserved { rho: u.rho, mom: u.mom, energy: scheme.heat(dt, u.energy, rate) }
}

/// Every state of `cells` was found physical.
pub open spec fn all_physical<K: Scheme1d>(scheme: K, cells: Seq<Conserved<K::Real>>) -> bool {
    forall|i: int|
        0 <= i < cells.len() ==> call_ensures(K::is_physical, (&scheme, #[trigger] cells[i]), true)
}

/// State `k` of `cells` is the first that was found non-physical.
pub open spec fn first_bad<K: Scheme1d>(scheme: K, cells: Seq<Conserved<K::Real>>, k: int) -> bool {
    &&& 0 <= k < cells.len()
    &&& call_ensures(K::is_physical, (&scheme, cells[k]), false)
    &&& all_physical(scheme, cells.subrange(0, k))
}

/// `cells` become `updated` in one flux update of length `dt` with a source:
/// faces, fluxes, flux difference, heating.
pub open spec fn is_update<K: Scheme1d>(
    pre: Domain1d<K>,
    dt: K::Real,
    rates: spec_fn(int, K::Real, K::Real) -> bool,
    faces: Seq<(Conserved<K::Real>, Conserved<K::Real>)>,
    fluxes: Seq<Conserved<K::Real>>,
    updated: Seq<Conserved<K::Real>>,
) -> bool {
    &&& are_faces(pre.scheme, dt, ghosted(pre.cells, pre.boundary), faces)
    &&& are_fluxes(pre.scheme, faces, fluxes)
    &&& updated.len() == pre.cells.len()
    &&& forall|i: int|
        0 <= i < updated.len() ==> is_cell_update(
            pre,
            dt,
            rates,
            fluxes,
            i,
            #[trigger] updated[i],
        )
}

/// Cell `i` becomes `updated`.
pub open spec fn is_cell_update<K: Scheme1d>(
    pre: Domain1d<K>,
    dt: K::Real,
    rates: spec_fn(int, K::Real, K::Real) -> bool,
    fluxes: Seq<Conserved<K::Real>>,
    i: int,
    updated: Conserved<K::Real>,
) -> bool {
    exists|u: Conserved<K::Real>|
        {
            &&& #[trigger] is_advanced(pre.scheme, dt, pre.cells[i], fluxes[i], fluxes[i + 1], u)
            &&& is_heated(pre.scheme, dt, rates, i, u, updated)
        }
}

/// `run[i]` is the largest signal speed of the first `i` cells.
pub open spec fn is_speed_run<K: Scheme1d>(
    scheme: K,
    cells: Seq<Conserved<K::Real>>,
    run: Seq<K::Real>,
) -> bool {
    &&& run.len() == cells.len() + 1
    &&& call_ensures(K::zero, (&scheme,), run[0])
    &&& forall|i: int|
        #![trigger cells[i]]
        0 <= i < cells.len() ==> is_larger_speed(scheme, cells[i], run[i], run[i + 1])
}

pub open spec fn is_larger_speed<K: Scheme1d>(
    scheme: K,
    u: Conserved<K::Real>,
    before: K::Real,
    after: K::Real,
) -> bool {
    exists|s: K::Real|
        #[trigger] call_ensures(K::wave_speed, (&scheme, u), s) && call_ensures(
            K::larger,
            (&scheme, before, s),
            after,
        )
}

/// `speed` is the largest signal speed of the domain.
pub open spec fn is_max_speed<K: Scheme1d>(pre: Domain1d<K>, speed: K::Real) -> bool {
    exists|run: Seq<K::Real>|
        #[trigger] is_speed_run(pre.scheme, pre.cells, run) && run.last() == speed
}

/// What [`Euler1d::stable_dt`] may return for a domain.
pub open spec fn is_stable_dt<K: Scheme1d>(
    pre: Domain1d<K>,
    r: Result<K::Real, EulerError>,
) -> bool {
    exists|speed: K::Real|
        {
            &&& #[trigger] is_max_speed(pre, speed)
            &&& match r {
                Ok(dt) => {
                    &&& call_ensures(K::is_positive, (&pre.scheme, speed), true)
                    &&& call_ensures(K::courant_step, (&pre.scheme, pre.cfl, speed), dt)
                },
                Err(e) => {
                    &&& call_ensures(K::is_positive, (&pre.scheme, speed), false)
                    &&& e matches EulerError::NoWaveSpeed { step } && step == pre.steps
                },
            }
        }
}

/// The refusal that names state `k` of a line starting at interior index
/// `first`, in a domain of `n` cells.
pub open spec fn names_cell(
    e: EulerError,
    stage: Stage,
    steps: nat,
    n: int,
    first: int,
    k: int,
) -> bool {
    match e {
        EulerError::NonPhysical { stage: s, step, cell, is_ghost } => {
            &&& s == stage
            &&& step == steps
            &&& cell == k + first
            &&& is_ghost == (cell < 0 || cell >= n)
        },
        _ => false,
    }
}

/// The left (first) or right (second) members of a line of faces.
pub open spec fn left_faces<S>(faces: Seq<(S, S)>) -> Seq<S> {
    Seq::new(faces.len(), |m: int| faces[m].0)
}

pub open spec fn right_faces<S>(faces: Seq<(S, S)>) -> Seq<S> {
    Seq::new(faces.len(), |m: int| faces[m].1)
}

/// A result by the view of its value.
pub open spec fn viewed<S, E>(r: Result<Vec<S>, E>) -> Result<Seq<S>, E> {
    match r {
        Ok(v) => Ok(v@),
        Err(e) => Err(e),
    }
}

/// What the reconstruction of a domain's faces and fluxes may return.
pub open spec fn is_flux_outcome<K: Scheme1d>(
    pre: Domain1d<K>,
    dt: K::Real,
    faces: Seq<(Conserved<K::Real>, Conserved<K::Real>)>,
    r: Result<Seq<Conserved<K::Real>>, EulerError>,
) -> bool {
    let n = pre.cells.len() as int;
    let first = 1 - N_GHOST;
    let left = left_faces(faces);
    let right = right_faces(faces);
    &&& are_faces(pre.scheme, dt, ghosted(pre.cells, pre.boundary), faces)
    &&& match r {
        Ok(fluxes) => {
            &&& all_physical(pre.scheme, left)
            &&& all_physical(pre.scheme, right)
            &&& are_fluxes(pre.scheme, faces, fluxes)
        },
        Err(e) => {
            ||| exists|k: int|
                #[trigger] first_bad(pre.scheme, left, k) && names_cell(
                    e,
                    Stage::LeftFace,
                    pre.steps,
                    n,
                    first,
                    k,
                )
            ||| {
                &&& all_physical(pre.scheme, left)
                &&& exists|k: int|
                    #[trigger] first_bad(pre.scheme, right, k) && names_cell(
                        e,
                        Stage::RightFace,
                        pre.steps,
                        n,
                        first,
                        k,
                    )
            }
        },
    }
}

/// The step may be taken: positive and within the stable one.
pub open spec fn is_admitted<K: Scheme1d>(pre: Domain1d<K>, dt: K::Real) -> bool {
    &&& call_ensures(K::is_positive, (&pre.scheme, dt), true)
    &&& exists|limit: K::Real|
        is_stable_dt(pre, Ok(limit)) && #[trigger] call_ensures(
            K::violates,
            (&pre.scheme, dt, limit),
            false,
        )
}

/// A completed step of length `dt`.
pub open spec fn is_step<K: Scheme1d>(
    pre: Domain1d<K>,
    dt: K::Real,
    rates: spec_fn(int, K::Real, K::Real) -> bool,
    post: Domain1d<K>,
) -> bool {
    &&& is_admitted(pre, dt)
    &&& exists|faces: Seq<(Conserved<K::Real>, Conserved<K::Real>)>, fluxes: Seq<Conserved<K::Real>>|
        {
            &&& #[trigger] is_update(pre, dt, rates, faces, fluxes, post.cells)
            &&& is_flux_outcome(pre, dt, faces, Ok(fluxes))
        }
    &&& all_physical(pre.scheme, post.cells)
    &&& call_ensures(K::plus, (&pre.scheme, pre.time, dt), post.time)
    &&& post.steps == pre.steps + 1
    &&& post.scheme == pre.scheme
    &&& post.boundary == pre.boundary
    &&& post.cfl == pre.cfl
}

/// A refused step: why, in the order in which the guards run.
pub open spec fn is_refused_step<K: Scheme1d>(
    pre: Domain1d<K>,
    dt: K::Real,
    rates: spec_fn(int, K::Real, K::Real) -> bool,
    e: EulerError,
) -> bool {
    match e {
        EulerError::BadStep { step } => {
            &&& call_ensures(K::is_positive, (&pre.scheme, dt), false)
            &&& step == pre.steps
        },
        EulerError::NoWaveSpeed { step } => {
            &&& call_ensures(K::is_positive, (&pre.scheme, dt), true)
            &&& is_stable_dt(pre, Err(e))
        },
        EulerError::CflViolation { step } => {
            &&& call_ensures(K::is_positive, (&pre.scheme, dt), true)
            &&& step == pre.steps
            &&& exists|limit: K::Real|
                is_stable_dt(pre, Ok(limit)) && #[trigger] call_ensures(
                    K::violates,
                    (&pre.scheme, dt, limit),
                    true,
                )
        },
        EulerError::NonPhysical { stage, .. } => {
            &&& is_admitted(pre, dt)
            &&& if stage == Stage::ConservativeUpdate {
                exists|
                    faces: Seq<(Conserved<K::Real>, Conserved<K::Real>)>,
                    fluxes: Seq<Conserved<K::Real>>,
                    updated: Seq<Conserved<K::Real>>,
                    k: int,
                |
                    {
                        &&& #[trigger] is_update(pre, dt, rates, faces, fluxes, updated)
                        &&& is_flux_outcome(pre, dt, faces, Ok(fluxes))
                        &&& #[trigger] first_bad(pre.scheme, updated, k)
                        &&& names_cell(e, stage, pre.steps, pre.cells.len() as int, 0, k)
                    }
            } else {
                exists|faces: Seq<(Conserved<K::Real>, Conserved<K::Real>)>|
                    #[trigger] is_flux_outcome(pre, dt, faces, Err(e))
            }
        },
        _ => false,
    }
}

/// A one-dimensional domain and its state.
pub struct Euler1d<K: Scheme1d> {
    scheme: K,
    boundary: Boundary,
    /// Interior cells only; ghosts are made for each step.
    cells: Vec<Conserved<K::Real>>,
    cfl: K::Real,
    time: K::Real,
    step_count: usize,
}

impl<K: Scheme1d> View for Euler1d<K> {
    type V = Domain1d<K>;

    closed spec fn view(&self) -> Domain1d<K> {
        Domain1d {
            scheme: self.scheme,
            boundary: self.boundary,
            cells: self.cells@,
            cfl: self.cfl,
            time: self.time,
            steps: self.step_count as nat,
        }
    }
}

impl<K: Scheme1d> Domain1d<K> {
    /// The stencil fits, and every index of the padded line is a signed number.
    pub open spec fn valid(self) -> bool {
        &&& 2 * N_GHOST <= self.cells.len()
        &&& self.cells.len() + 2 * N_GHOST <= isize::MAX
        &&& self.steps <= usize::MAX
    }
}

impl<K: Scheme1d> Euler1d<K> {
    /// Build from cell-centred primitive states.
    pub fn new(scheme: K, boundary: Boundary, initial: &[Primitive<K::Real>]) -> (r: Result<
        Self,
        EulerError,
    >)
        requires
            initial@.len() + 2 * N_GHOST <= isize::MAX,
        ensures
            is_build(scheme, boundary, initial@, r),
    {
        if initial.len() < 2 * N_GHOST {
            return Err(EulerError::TooFewCells { cells: initial.len() });
        }
        if !scheme.spacing_is_valid() {
            return Err(EulerError::BadSpacing);
        }
        for i in 0..initial.len()
            invariant
                forall|j: int|
                    0 <= j < i ==> call_ensures(
                        K::admits,
                        (&scheme, #[trigger] initial@[j]),
                        true,
                    ),
                initial@.len() >= 2 * N_GHOST,
                call_ensures(K::spacing_is_valid, (&scheme,), true),
        {
            if !scheme.admits(initial[i]) {
                return Err(EulerError::BadInitialState { index: i });
            }
        }
        let mut cells: Vec<Conserved<K::Real>> = Vec::with_capacity(initial.len());
        for i in 0..initial.len()
            invariant
                cells@.len() == i,
                forall|j: int|
                    0 <= j < i ==> call_ensures(
                        K::to_conserved,
                        (&scheme, #[trigger] initial@[j]),
                        cells@[j],
                    ),
        {
            let u: Conserved<K::Real> = scheme.to_conserved(initial[i]);
            cells.push(u);
        }
        let cfl: K::Real = scheme.default_cfl();
        let time: K::Real = scheme.zero();
        Ok(Euler1d { scheme, boundary, cells, cfl, time, step_count: 0 })
    }

    /// Sample `initial` at the `n` cell centres.
    pub fn from_fn<F: Fn(K::Real) -> Primitive<K::Real>>(
        scheme: K,
        boundary: Boundary,
        n: usize,
        initial: F,
    ) -> (r: Result<Self, EulerError>)
        requires
            n + 2 * N_GHOST <= isize::MAX,
            forall|x: K::Real| #[trigger] call_requires(initial, (x,)),
        ensures
            exists|states: Seq<Primitive<K::Real>>|
                #[trigger] are_samples::<K, F>(scheme, initial, n as int, states) && is_build(
                    scheme,
                    boundary,
                    states,
                    r,
                ),
    {
        let mut states: Vec<Primitive<K::Real>> = Vec::with_capacity(n);
        for i in 0..n
            invariant
                states@.len() == i,
                forall|x: K::Real| #[trigger] call_requires(initial, (x,)),
                are_samples::<K, F>(scheme, initial, i as int, states@),
        {
            let x: K::Real = scheme.x_centre(i);
            let w: Primitive<K::Real> = initial(x);
            states.push(w);
        }
        Self::new(scheme, boundary, states.as_slice())
    }
}

/// What building a domain from `initial` may return.
pub open spec fn is_build<K: Scheme1d>(
    scheme: K,
    boundary: Boundary,
    initial: Seq<Primitive<K::Real>>,
    r: Result<Euler1d<K>, EulerError>,
) -> bool {
    let fits = initial.len() >= 2 * N_GHOST;
    match r {
        Ok(s) => {
            &&& s@.valid()
            &&& call_ensures(K::spacing_is_valid, (&scheme,), true)
            &&& s@.scheme == scheme
            &&& s@.boundary == boundary
            &&& s@.steps == 0
            &&& call_ensures(K::default_cfl, (&scheme,), s@.cfl)
            &&& call_ensures(K::zero, (&scheme,), s@.time)
            &&& s@.cells.len() == initial.len()
            &&& forall|i: int|
                #![trigger initial[i]]
                0 <= i < initial.len() ==> call_ensures(K::admits, (&scheme, initial[i]), true)
                    && call_ensures(K::to_conserved, (&scheme, initial[i]), s@.cells[i])
        },
        Err(EulerError::TooFewCells { cells }) => !fits && cells == initial.len(),
        Err(EulerError::BadSpacing) => {
            &&& fits
            &&& call_ensures(K::spacing_is_valid, (&scheme,), false)
        },
        Err(EulerError::BadInitialState { index }) => {
            &&& fits
            &&& call_ensures(K::spacing_is_valid, (&scheme,), true)
            &&& index < initial.len()
            &&& call_ensures(K::admits, (&scheme, initial[index as int]), false)
            &&& forall|i: int|
                0 <= i < index ==> call_ensures(K::admits, (&scheme, #[trigger] initial[i]), true)
        },
        _ => false,
    }
}

/// `states[i]` is `initial` at the centre of cell `i`.
pub open spec fn are_samples<K: Scheme1d, F: Fn(K::Real) -> Primitive<K::Real>>(
    scheme: K,
    initial: F,
    n: int,
    states: Seq<Primitive<K::Real>>,
) -> bool {
    &&& states.len() == n
    &&& forall|i: int|
        0 <= i < n ==> is_sample::<K, F>(scheme, initial, i, #[trigger] states[i])
}

pub open spec fn is_sample<K: Scheme1d, F: Fn(K::Real) -> Primitive<K::Real>>(
    scheme: K,
    initial: F,
    i: int,
    w: Primitive<K::Real>,
) -> bool {
    exists|x: K::Real|
        #[trigger] call_ensures(K::x_centre, (&scheme, i as usize), x) && call_ensures(
            initial,
            (x,),
            w,
        )
}

impl<K: Scheme1d> Euler1d<K> {
    /// Set the Courant number; one out of range is refused, not reduced.
    pub fn set_cfl(&mut self, cfl: K::Real) -> (r: Result<(), EulerError>)
        ensures
            match r {
                Ok(_) => {
                    &&& call_ensures(K::cfl_is_valid, (&old(self)@.scheme, cfl), true)
                    &&& final(self)@ == (Domain1d { cfl, ..old(self)@ })
                },
                Err(e) => {
                    &&& call_ensures(K::cfl_is_valid, (&old(self)@.scheme, cfl), false)
                    &&& e == EulerError::BadCfl
                    &&& final(self)@ == old(self)@
                },
            },
    {
        if !self.scheme.cfl_is_valid(cfl) {
            return Err(EulerError::BadCfl);
        }
        self.cfl = cfl;
        Ok(())
    }

    /// Courant number in force.
    pub fn cfl(&self) -> (cfl: K::Real)
        ensures
            cfl == self@.cfl,
    {
        self.cfl
    }

    /// Elapsed time.
    pub fn time(&self) -> (t: K::Real)
        ensures
            t == self@.time,
    {
        self.time
    }

    /// Completed steps.
    pub fn steps(&self) -> (n: usize)
        ensures
            n == self@.steps,
    {
        self.step_count
    }

    /// Number of interior cells.
    pub fn len(&self) -> (n: usize)
        ensures
            n == self@.cells.len(),
    {
        self.cells.len()
    }

    /// Whether there are no interior cells, which a valid domain rules out.
    pub fn is_empty(&self) -> (b: bool)
        ensures
            b == (self@.cells.len() == 0),
            self@.valid() ==> !b,
    {
        self.cells.len() == 0
    }

    /// The arithmetic in force.
    pub fn scheme(&self) -> (k: &K)
        ensures
            *k == self@.scheme,
    {
        &self.scheme
    }

    /// Conserved state, interior cells.
    pub fn cells(&self) -> (c: &[Conserved<K::Real>])
        ensures
            c@ == self@.cells,
    {
        self.cells.as_slice()
    }

    /// Primitive state, interior cells.
    pub fn primitives(&self) -> (out: Vec<Primitive<K::Real>>)
        ensures
            out@.len() == self@.cells.len(),
            forall|i: int|
                0 <= i < out@.len() ==> call_ensures(
                    K::to_primitive,
                    (&self@.scheme, self@.cells[i]),
                    #[trigger] out@[i],
                ),
    {
        let mut out: Vec<Primitive<K::Real>> = Vec::with_capacity(self.cells.len());
        for i in 0..self.cells.len()
            invariant
                out@.len() == i,
                forall|j: int|
                    0 <= j < i ==> call_ensures(
                        K::to_primitive,
                        (&self.scheme, self.cells@[j]),
                        #[trigger] out@[j],
                    ),
        {
            let w: Primitive<K::Real> = self.scheme.to_primitive(self.cells[i]);
            out.push(w);
        }
        out
    }

    /// Largest signal speed over the domain.
    pub fn max_wave_speed(&self) -> (speed: K::Real)
        ensures
            is_max_speed(self@, speed),
    {
        let mut speed: K::Real = self.scheme.zero();
        let ghost mut run: Seq<K::Real> = seq![speed];
        for i in 0..self.cells.len()
            invariant
                run.len() == i + 1,
                run.last() == speed,
                is_speed_run(self.scheme, self.cells@.subrange(0, i as int), run),
        {
            let s: K::Real = self.scheme.wave_speed(self.cells[i]);
            let next: K::Real = self.scheme.larger(speed, s);
            proof {
                let shorter = self.cells@.subrange(0, i as int);
                let longer = self.cells@.subrange(0, i + 1);
                assert(is_larger_speed(self.scheme, self.cells@[i as int], speed, next));
                let run2 = run.push(next);
                assert forall|j: int| 0 <= j < longer.len() implies is_larger_speed(
                    self.scheme,
                    #[trigger] longer[j],
                    run2[j],
                    run2[j + 1],
                ) by {
                    if j < i {
                        assert(longer[j] == shorter[j]);
                    }
                }
                run = run2;
            }
            speed = next;
        }
        proof {
            assert(self.cells@.subrange(0, self.cells@.len() as int) =~= self.cells@);
            assert(is_speed_run(self@.scheme, self@.cells, run));
        }
        speed
    }

    /// Stable step from the current signal speeds.
    pub fn stable_dt(&self) -> (r: Result<K::Real, EulerError>)
        ensures
            is_stable_dt(self@, r),
    {
        let s: K::Real = self.max_wave_speed();
        if !self.scheme.is_positive(s) {
            return Err(EulerError::NoWaveSpeed { step: self.step_count });
        }
        Ok(self.scheme.courant_step(self.cfl, s))
    }

    /// Refuse the first non-physical state of `cells`, naming it by its
    /// interior index. `first_index` is the interior index of `cells[0]`, since
    /// the reconstruction checks a line that starts one cell before the domain.
    pub fn assert_physical(&self, cells: &[Conserved<K::Real>], stage: Stage, first_index: isize) -> (r:
        Result<(), EulerError>)
        requires
            cells@.len() + first_index <= isize::MAX,
            self@.cells.len() <= isize::MAX,
            cells@.len() <= isize::MAX,
        ensures
            match r {
                Ok(_) => all_physical(self@.scheme, cells@),
                Err(e) => exists|k: int|
                    #[trigger] first_bad(self@.scheme, cells@, k) && names_cell(
                        e,
                        stage,
                        self@.steps,
                        self@.cells.len() as int,
                        first_index as int,
                        k,
                    ),
            },
    {
        for k in 0..cells.len()
            invariant
                cells@.len() + first_index <= isize::MAX,
                cells@.len() <= isize::MAX,
                self.cells@.len() <= isize::MAX,
                all_physical(self.scheme, cells@.subrange(0, k as int)),
        {
            if !self.scheme.is_physical(cells[k]) {
                let cell: isize = k as isize + first_index;
                let is_ghost: bool = cell < 0 || cell >= self.cells.len() as isize;
                let e: EulerError = EulerError::NonPhysical {
                    stage,
                    step: self.step_count,
                    cell,
                    is_ghost,
                };
                proof {
                    assert(first_bad(self@.scheme, cells@, k as int));
                }
                return Err(e);
            }
            proof {
                let longer = cells@.subrange(0, k + 1);
                assert forall|j: int| 0 <= j < longer.len() implies call_ensures(
                    K::is_physical,
                    (&self.scheme, #[trigger] longer[j]),
                    true,
                ) by {
                    if j < k {
                        assert(longer[j] == cells@.subrange(0, k as int)[j]);
                    }
                }
            }
        }
        proof {
            assert(cells@.subrange(0, cells@.len() as int) =~= cells@);
        }
        Ok(())
    }

    /// Interior cells with [`N_GHOST`] ghosts per side.
    pub fn with_ghosts(&self) -> (padded: Vec<Conserved<K::Real>>)
        requires
            self@.valid(),
        ensures
            padded@ == ghosted(self@.cells, self@.boundary),
    {
        let n: usize = self.cells.len();
        let mut padded: Vec<Conserved<K::Real>> = Vec::with_capacity(n + 2 * N_GHOST);
        let ghost want = ghosted(self.cells@, self.boundary);
        for g in 0..N_GHOST
            invariant
                n == self.cells@.len(),
                n >= 2 * N_GHOST,
                want == ghosted(self.cells@, self.boundary),
                padded@ == want.subrange(0, g as int),
        {
            let u: Conserved<K::Real> = match self.boundary {
                Boundary::Transmissive => self.cells[0],
                Boundary::Periodic => self.cells[n - N_GHOST + g],
            };
            padded.push(u);
            proof {
                assert(want.subrange(0, g + 1) =~= want.subrange(0, g as int).push(want[g as int]));
            }
        }
        for i in 0..n
            invariant
                n == self.cells@.len(),
                n >= 2 * N_GHOST,
                want == ghosted(self.cells@, self.boundary),
                padded@ == want.subrange(0, N_GHOST + i),
        {
            padded.push(self.cells[i]);
            proof {
                assert(want.subrange(0, N_GHOST + i + 1) =~= want.subrange(0, N_GHOST + i).push(
                    want[N_GHOST + i],
                ));
            }
        }
        for g in 0..N_GHOST
            invariant
                n == self.cells@.len(),
                n >= 2 * N_GHOST,
                want == ghosted(self.cells@, self.boundary),
                padded@ == want.subrange(0, N_GHOST + n + g),
        {
            let u: Conserved<K::Real> = match self.boundary {
                Boundary::Transmissive => self.cells[n - 1],
                Boundary::Periodic => self.cells[g],
            };
            padded.push(u);
            proof {
                assert(want.subrange(0, N_GHOST + n + g + 1) =~= want.subrange(
                    0,
                    N_GHOST + n + g,
                ).push(want[N_GHOST + n + g]));
            }
        }
        proof {
            assert(want.subrange(0, N_GHOST + n + N_GHOST) =~= want);
        }
        padded
    }

    /// MUSCL-Hancock fluxes through the `n + 1` interfaces of the domain.
    pub fn interface_fluxes(&self, dt: K::Real) -> (r: Result<Vec<Conserved<K::Real>>, EulerError>)
        requires
            self@.valid(),
        ensures
            exists|faces: Seq<(Conserved<K::Real>, Conserved<K::Real>)>| #[trigger]
                is_flux_outcome(self@, dt, faces, viewed(r)),
            r matches Ok(fluxes) ==> fluxes@.len() == self@.cells.len() + 1,
    {
        let padded: Vec<Conserved<K::Real>> = self.with_ghosts();
        let n: usize = self.cells.len();
        let mut left: Vec<Conserved<K::Real>> = Vec::with_capacity(n + 2);
        let mut right: Vec<Conserved<K::Real>> = Vec::with_capacity(n + 2);
        let ghost mut faces: Seq<(Conserved<K::Real>, Conserved<K::Real>)> = Seq::empty();
        for m in 0..n + 2
            invariant
                padded@.len() == n + 4,
                n + 4 <= isize::MAX,
                faces.len() == m,
                left@ == left_faces(faces),
                right@ == right_faces(faces),
                forall|j: int|
                    0 <= j < m ==> are_cell_faces(
                        self.scheme,
                        dt,
                        padded@[j],
                        padded@[j + 1],
                        padded@[j + 2],
                        #[trigger] faces[j],
                    ),
        {
            let (l, r) = cell_faces(&self.scheme, dt, padded[m], padded[m + 1], padded[m + 2]);
            left.push(l);
            right.push(r);
            proof {
                faces = faces.push((l, r));
                assert(left@ =~= left_faces(faces));
                assert(right@ =~= right_faces(faces));
            }
        }
        // The line of faces starts at the last ghost cell before the domain.
        let first: isize = 1 - N_GHOST as isize;
        proof {
            assert(are_faces(self@.scheme, dt, ghosted(self@.cells, self@.boundary), faces));
        }
        match self.assert_physical(left.as_slice(), Stage::LeftFace, first) {
            Ok(_) => {},
            Err(e) => {
                proof {
                    assert(is_flux_outcome(self@, dt, faces, Err(e)));
                }
                return Err(e);
            },
        }
        match self.assert_physical(right.as_slice(), Stage::RightFace, first) {
            Ok(_) => {},
            Err(e) => {
                proof {
                    assert(is_flux_outcome(self@, dt, faces, Err(e)));
                }
                return Err(e);
            },
        }
        let mut fluxes: Vec<Conserved<K::Real>> = Vec::with_capacity(n + 1);
        for j in 0..n + 1
            invariant
                n + 4 <= isize::MAX,
                faces.len() == n + 2,
                left@ == left_faces(faces),
                right@ == right_faces(faces),
                fluxes@.len() == j,
                forall|i: int|
                    0 <= i < j ==> is_hllc(
                        self.scheme,
                        faces[i].1,
                        faces[i + 1].0,
                        #[trigger] fluxes@[i],
                    ),
        {
            let f: Conserved<K::Real> = hllc_flux(&self.scheme, right[j], left[j + 1]);
            fluxes.push(f);
        }
        proof {
            assert(is_flux_outcome(self@, dt, faces, Ok(fluxes@)));
        }
        Ok(fluxes)
    }

    /// Advance by `dt` with a volumetric energy source `source(i, x)` folded
    /// into the update. Alone this is first order in time: the second-order
    /// coupling is a half-interval of [`Euler1d::add_energy`] on either side of
    /// [`Euler1d::step`].
    pub fn step_with_source<F: Fn(usize, K::Real) -> K::Real>(&mut self, dt: K::Real, source: F)
        -> (r: Result<(), EulerError>)
        requires
            old(self)@.valid(),
            old(self)@.steps < usize::MAX,
            forall|i: usize, x: K::Real|
                i < old(self)@.cells.len() ==> #[trigger] call_requires(source, (i, x)),
        ensures
            final(self)@.valid(),
            is_step_outcome(old(self)@, dt, rates_of(source), final(self)@, r),
    {
        if !self.scheme.is_positive(dt) {
            return Err(EulerError::BadStep { step: self.step_count });
        }
        let limit: K::Real = match self.stable_dt() {
            Ok(limit) => limit,
            Err(e) => {
                return Err(e);
            },
        };
        if self.scheme.violates(dt, limit) {
            return Err(EulerError::CflViolation { step: self.step_count });
        }
        proof {
            assert(is_admitted(self@, dt));
        }
        let fluxes: Vec<Conserved<K::Real>> = match self.interface_fluxes(dt) {
            Ok(fluxes) => fluxes,
            Err(e) => {
                return Err(e);
            },
        };
        let ghost faces = choose|faces: Seq<(Conserved<K::Real>, Conserved<K::Real>)>| #[trigger]
            is_flux_outcome(self@, dt, faces, Ok(fluxes@));
        let n: usize = self.cells.len();
        let ghost rates = rates_of::<K::Real, F>(source);
        let mut updated: Vec<Conserved<K::Real>> = Vec::with_capacity(n);
        for i in 0..n
            invariant
                n == self.cells@.len(),
                n < isize::MAX,
                fluxes@.len() == n + 1,
                updated@.len() == i,
                rates == rates_of::<K::Real, F>(source),
                forall|i: usize, x: K::Real|
                    i < n ==> #[trigger] call_requires(source, (i, x)),
                forall|j: int|
                    0 <= j < i ==> is_cell_update(
                        self@,
                        dt,
                        rates,
                        fluxes@,
                        j,
                        #[trigger] updated@[j],
                    ),
        {
            let u: Conserved<K::Real> = advanced(&self.scheme, dt, self.cells[i], fluxes[i], fluxes[i + 1]);
            let x: K::Real = self.scheme.x_centre(i);
            let rate: K::Real = source(i, x);
            let heated: Conserved<K::Real> = warm(&self.scheme, dt, u, rate);
            proof {
                assert(rates(i as int, x, rate));
                assert(is_heated(self.scheme, dt, rates, i as int, u, heated));
                let (lo, hi) = (fluxes@[i as int], fluxes@[i + 1]);
                assert(is_advanced(self@.scheme, dt, self@.cells[i as int], lo, hi, u));
                assert(is_cell_update(self@, dt, rates, fluxes@, i as int, heated));
            }
            updated.push(heated);
        }
        proof {
            assert(is_update(self@, dt, rates, faces, fluxes@, updated@));
        }
        match self.assert_physical(updated.as_slice(), Stage::ConservativeUpdate, 0) {
            Ok(_) => {},
            Err(e) => {
                return Err(e);
            },
        }
        self.cells = updated;
        self.time = self.scheme.plus(self.time, dt);
        self.step_count = self.step_count + 1;
        Ok(())
    }

    /// Advance by `dt` without a source.
    pub fn step(&mut self, dt: K::Real) -> (r: Result<(), EulerError>)
        requires
            old(self)@.valid(),
            old(self)@.steps < usize::MAX,
        ensures
            final(self)@.valid(),
            is_unforced_outcome(old(self)@, dt, final(self)@, r),
    {
        let zero: K::Real = self.scheme.zero();
        let still = |_i: usize, _x: K::Real| -> (q: K::Real)
            ensures
                q == zero,
            { zero };
        let r: Result<(), EulerError> = self.step_with_source(dt, still);
        proof {
            lemma_outcome_widens(
                old(self)@,
                dt,
                rates_of(still),
                constant_rate(zero),
                self@,
                r,
            );
        }
        r
    }

    /// Let the source act for `dt` without a flux update: one half of a
    /// symmetric split. Neither the clock nor the step counter moves, and the
    /// Courant limit, which is on the flux update, is not asked.
    pub fn add_energy<F: Fn(usize, K::Real) -> K::Real>(&mut self, dt: K::Real, source: F) -> (r:
        Result<(), EulerError>)
        requires
            old(self)@.valid(),
            forall|i: usize, x: K::Real|
                i < old(self)@.cells.len() ==> #[trigger] call_requires(source, (i, x)),
        ensures
            final(self)@.valid(),
            is_heating_outcome(old(self)@, dt, rates_of(source), final(self)@, r),
    {
        if !self.scheme.is_source_interval(dt) {
            return Err(EulerError::BadSourceInterval { step: self.step_count });
        }
        let n: usize = self.cells.len();
        let ghost rates = rates_of::<K::Real, F>(source);
        let mut heated: Vec<Conserved<K::Real>> = Vec::with_capacity(n);
        for i in 0..n
            invariant
                n == self.cells@.len(),
                heated@.len() == i,
                rates == rates_of::<K::Real, F>(source),
                forall|i: usize, x: K::Real|
                    i < n ==> #[trigger] call_requires(source, (i, x)),
                forall|j: int|
                    0 <= j < i ==> is_heated(
                        self.scheme,
                        dt,
                        rates,
                        j,
                        self.cells@[j],
                        #[trigger] heated@[j],
                    ),
        {
            let x: K::Real = self.scheme.x_centre(i);
            let rate: K::Real = source(i, x);
            let u: Conserved<K::Real> = warm(&self.scheme, dt, self.cells[i], rate);
            proof {
                assert(rates(i as int, x, rate));
            }
            heated.push(u);
        }
        proof {
            assert(is_heating(self@, dt, rates, heated@));
        }
        match self.assert_physical(heated.as_slice(), Stage::EnergySource, 0) {
            Ok(_) => {},
            Err(e) => {
                return Err(e);
            },
        }
        self.cells = heated;
        Ok(())
    }

    /// March to `t_end`, sizing every step from the current signal speeds and
    /// clipping the last one to land on `t_end`.
    pub fn advance_to(&mut self, t_end: K::Real) -> (r: Result<(), EulerError>)
        requires
            old(self)@.valid(),
        ensures
            final(self)@.valid(),
            exists|trace: Seq<Domain1d<K>>|
                {
                    &&& #[trigger] is_march(old(self)@, t_end, trace)
                    &&& trace.last() == final(self)@
                    &&& is_march_end(final(self)@, t_end, r)
                },
    {
        let ghost mut trace: Seq<Domain1d<K>> = seq![self@];
        loop
            invariant
                self@.valid(),
                is_march(old(self)@, t_end, trace),
                trace.last() == self@,
            decreases usize::MAX - self.step_count,
        {
            if !self.scheme.is_before(self.time, t_end) {
                return Ok(());
            }
            if self.step_count == usize::MAX {
                return Err(EulerError::StepsExhausted);
            }
            let limit: K::Real = match self.stable_dt() {
                Ok(limit) => limit,
                Err(e) => {
                    return Err(e);
                },
            };
            let dt: K::Real = self.scheme.clip(limit, self.time, t_end);
            let ghost pre = self@;
            proof {
                assert(is_clipped(pre, t_end, dt));
            }
            match self.step(dt) {
                Ok(_) => {},
                Err(e) => {
                    proof {
                        assert(is_march_end(self@, t_end, Err(e)));
                    }
                    return Err(e);
                },
            }
            proof {
                assert(is_marched(pre, t_end, self@));
                let longer = trace.push(self@);
                assert forall|i: int| 0 <= i < longer.len() - 1 implies is_marched(
                    #[trigger] longer[i],
                    t_end,
                    longer[i + 1],
                ) by {
                    if i < trace.len() - 1 {
                        assert(is_marched(trace[i], t_end, trace[i + 1]));
                    }
                }
                trace = longer;
            }
        }
    }

    /// Sum of a per-cell quantity, cell by cell from the first, as a domain
    /// integral.
    fn integrate<Q: Fn(Conserved<K::Real>) -> K::Real>(&self, quantity: Q) -> (total: K::Real)
        requires
            forall|u: Conserved<K::Real>| #[trigger] call_requires(quantity, (u,)),
        ensures
            is_integral(
                self@,
                |u: Conserved<K::Real>, q: K::Real| call_ensures(quantity, (u,), q),
                total,
            ),
    {
        let ghost part = |u: Conserved<K::Real>, q: K::Real| call_ensures(quantity, (u,), q);
        let mut sum: K::Real = self.scheme.zero();
        let ghost mut run: Seq<K::Real> = seq![sum];
        for i in 0..self.cells.len()
            invariant
                forall|u: Conserved<K::Real>| #[trigger] call_requires(quantity, (u,)),
                part == (|u: Conserved<K::Real>, q: K::Real| call_ensures(quantity, (u,), q)),
                run.last() == sum,
                is_running_sum(self.scheme, part, self.cells@.subrange(0, i as int), run),
        {
            let q: K::Real = quantity(self.cells[i]);
            let next: K::Real = self.scheme.plus(sum, q);
            proof {
                let shorter = self.cells@.subrange(0, i as int);
                let longer = self.cells@.subrange(0, i + 1);
                assert(part(self.cells@[i as int], q));
                assert(is_added(self.scheme, part, self.cells@[i as int], sum, next));
                let run2 = run.push(next);
                assert forall|j: int| 0 <= j < longer.len() implies is_added(
                    self.scheme,
                    part,
                    #[trigger] longer[j],
                    run2[j],
                    run2[j + 1],
                ) by {
                    if j < i {
                        assert(longer[j] == shorter[j]);
                    }
                }
                run = run2;
            }
            sum = next;
        }
        proof {
            assert(self.cells@.subrange(0, self.cells@.len() as int) =~= self.cells@);
            assert(is_running_sum(self@.scheme, part, self@.cells, run));
        }
        self.scheme.integral(sum)
    }

    /// Domain integral of the mass density.
    pub fn total_mass(&self) -> (total: K::Real)
        ensures
            is_integral(self@, masses(), total),
    {
        let mass = |u: Conserved<K::Real>| -> (q: K::Real)
            ensures
                q == u.rho,
            { u.rho };
        let total: K::Real = self.integrate(mass);
        proof {
            lemma_integral_widens(
                self@,
                |u: Conserved<K::Real>, q: K::Real| call_ensures(mass, (u,), q),
                masses(),
                total,
            );
        }
        total
    }

    /// Domain integral of the total energy density.
    pub fn total_energy(&self) -> (total: K::Real)
        ensures
            is_integral(self@, energies(), total),
    {
        let energy = |u: Conserved<K::Real>| -> (q: K::Real)
            ensures
                q == u.energy,
            { u.energy };
        let total: K::Real = self.integrate(energy);
        proof {
            lemma_integral_widens(
                self@,
                |u: Conserved<K::Real>, q: K::Real| call_ensures(energy, (u,), q),
                energies(),
                total,
            );
        }
        total
    }
}

/// What a step may do: complete, or refuse and leave the domain as it was.
pub open spec fn is_step_outcome<K: Scheme1d>(
    pre: Domain1d<K>,
    dt: K::Real,
    rates: spec_fn(int, K::Real, K::Real) -> bool,
    post: Domain1d<K>,
    r: Result<(), EulerError>,
) -> bool {
    match r {
        Ok(_) => is_step(pre, dt, rates, post),
        Err(e) => is_refused_step(pre, dt, rates, e) && post == pre,
    }
}

/// What a step without a source may do.
pub open spec fn is_unforced_outcome<K: Scheme1d>(
    pre: Domain1d<K>,
    dt: K::Real,
    post: Domain1d<K>,
    r: Result<(), EulerError>,
) -> bool {
    exists|zero: K::Real|
        #[trigger] call_ensures(K::zero, (&pre.scheme,), zero) && is_step_outcome(
            pre,
            dt,
            constant_rate(zero),
            post,
            r,
        )
}

/// A step under some rates is a step under any that allow those rates.
pub proof fn lemma_outcome_widens<K: Scheme1d>(
    pre: Domain1d<K>,
    dt: K::Real,
    narrow: spec_fn(int, K::Real, K::Real) -> bool,
    wide: spec_fn(int, K::Real, K::Real) -> bool,
    post: Domain1d<K>,
    r: Result<(), EulerError>,
)
    requires
        forall|i: int, x: K::Real, q: K::Real| #[trigger] narrow(i, x, q) ==> wide(i, x, q),
        is_step_outcome(pre, dt, narrow, post, r),
    ensures
        is_step_outcome(pre, dt, wide, post, r),
{
    assert forall|
        faces: Seq<(Conserved<K::Real>, Conserved<K::Real>)>,
        fluxes: Seq<Conserved<K::Real>>,
        updated: Seq<Conserved<K::Real>>,
    | #[trigger] is_update(pre, dt, narrow, faces, fluxes, updated) implies is_update(
        pre,
        dt,
        wide,
        faces,
        fluxes,
        updated,
    ) by {
        assert forall|i: int| 0 <= i < updated.len() implies is_cell_update(
            pre,
            dt,
            wide,
            fluxes,
            i,
            #[trigger] updated[i],
        ) by {
            assert(is_cell_update(pre, dt, narrow, fluxes, i, updated[i]));
            let u = choose|u: Conserved<K::Real>|
                {
                    &&& #[trigger] is_advanced(
                        pre.scheme,
                        dt,
                        pre.cells[i],
                        fluxes[i],
                        fluxes[i + 1],
                        u,
                    )
                    &&& is_heated(pre.scheme, dt, narrow, i, u, updated[i])
                };
            let (x, rate) = choose|x: K::Real, rate: K::Real|
                {
                    &&& #[trigger] narrow(i, x, rate)
                    &&& call_ensures(K::x_centre, (&pre.scheme, i as usize), x)
                    &&& is_warmed(pre.scheme, dt, u, rate, updated[i])
                };
            assert(wide(i, x, rate));
            assert(is_heated(pre.scheme, dt, wide, i, u, updated[i]));
        }
    }
}

/// Every cell after the source has acted for `dt`.
pub open spec fn is_heating<K: Scheme1d>(
    pre: Domain1d<K>,
    dt: K::Real,
    rates: spec_fn(int, K::Real, K::Real) -> bool,
    heated: Seq<Conserved<K::Real>>,
) -> bool {
    &&& heated.len() == pre.cells.len()
    &&& forall|i: int|
        0 <= i < heated.len() ==> is_heated(
            pre.scheme,
            dt,
            rates,
            i,
            pre.cells[i],
            #[trigger] heated[i],
        )
}

/// What [`Euler1d::add_energy`] may do.
pub open spec fn is_heating_outcome<K: Scheme1d>(
    pre: Domain1d<K>,
    dt: K::Real,
    rates: spec_fn(int, K::Real, K::Real) -> bool,
    post: Domain1d<K>,
    r: Result<(), EulerError>,
) -> bool {
    match r {
        Ok(_) => {
            &&& call_ensures(K::is_source_interval, (&pre.scheme, dt), true)
            &&& is_heating(pre, dt, rates, post.cells)
            &&& all_physical(pre.scheme, post.cells)
            &&& post == (Domain1d { cells: post.cells, ..pre })
        },
        Err(EulerError::BadSourceInterval { step }) => {
            &&& call_ensures(K::is_source_interval, (&pre.scheme, dt), false)
            &&& step == pre.steps
            &&& post == pre
        },
        Err(e) => {
            &&& call_ensures(K::is_source_interval, (&pre.scheme, dt), true)
            &&& exists|heated: Seq<Conserved<K::Real>>, k: int|
                {
                    &&& #[trigger] is_heating(pre, dt, rates, heated)
                    &&& #[trigger] first_bad(pre.scheme, heated, k)
                    &&& names_cell(
                        e,
                        Stage::EnergySource,
                        pre.steps,
                        pre.cells.len() as int,
                        0,
                        k,
                    )
                }
            &&& post == pre
        },
    }
}

/// A heating under some rates is a heating under any that allow those rates.
pub proof fn lemma_heating_widens<K: Scheme1d>(
    pre: Domain1d<K>,
    dt: K::Real,
    narrow: spec_fn(int, K::Real, K::Real) -> bool,
    wide: spec_fn(int, K::Real, K::Real) -> bool,
    post: Domain1d<K>,
    r: Result<(), EulerError>,
)
    requires
        forall|i: int, x: K::Real, q: K::Real|
            0 <= i < pre.cells.len() && #[trigger] narrow(i, x, q) ==> wide(i, x, q),
        is_heating_outcome(pre, dt, narrow, post, r),
    ensures
        is_heating_outcome(pre, dt, wide, post, r),
{
    assert forall|heated: Seq<Conserved<K::Real>>| #[trigger]
        is_heating(pre, dt, narrow, heated) implies is_heating(pre, dt, wide, heated) by {
        assert forall|i: int| 0 <= i < heated.len() implies is_heated(
            pre.scheme,
            dt,
            wide,
            i,
            pre.cells[i],
            #[trigger] heated[i],
        ) by {
            assert(is_heated(pre.scheme, dt, narrow, i, pre.cells[i], heated[i]));
            let (x, rate) = choose|x: K::Real, rate: K::Real|
                {
                    &&& #[trigger] narrow(i, x, rate)
                    &&& call_ensures(K::x_centre, (&pre.scheme, i as usize), x)
                    &&& is_warmed(pre.scheme, dt, pre.cells[i], rate, heated[i])
                };
            assert(wide(i, x, rate));
        }
    }
}

/// `dt` is the stable step, clipped at `t_end`.
pub open spec fn is_clipped<K: Scheme1d>(pre: Domain1d<K>, t_end: K::Real, dt: K::Real) -> bool {
    exists|limit: K::Real|
        is_stable_dt(pre, Ok(limit)) && #[trigger] call_ensures(
            K::clip,
            (&pre.scheme, limit, pre.time, t_end),
            dt,
        )
}

/// One step of a march towards `t_end`.
pub open spec fn is_marched<K: Scheme1d>(
    pre: Domain1d<K>,
    t_end: K::Real,
    post: Domain1d<K>,
) -> bool {
    &&& call_ensures(K::is_before, (&pre.scheme, pre.time, t_end), true)
    &&& exists|dt: K::Real| #[trigger]
        is_clipped(pre, t_end, dt) && is_unforced_outcome(pre, dt, post, Ok(()))
}

/// The domains that a march from `pre` towards `t_end` passes through.
pub open spec fn is_march<K: Scheme1d>(
    pre: Domain1d<K>,
    t_end: K::Real,
    trace: Seq<Domain1d<K>>,
) -> bool {
    &&& trace.len() > 0
    &&& trace[0] == pre
    &&& forall|i: int|
        0 <= i < trace.len() - 1 ==> is_marched(#[trigger] trace[i], t_end, trace[i + 1])
}

/// Why a march ends at `last`: the time is reached, or the next step is refused.
pub open spec fn is_march_end<K: Scheme1d>(
    last: Domain1d<K>,
    t_end: K::Real,
    r: Result<(), EulerError>,
) -> bool {
    match r {
        Ok(_) => call_ensures(K::is_before, (&last.scheme, last.time, t_end), false),
        Err(e) => {
            &&& call_ensures(K::is_before, (&last.scheme, last.time, t_end), true)
            &&& {
                ||| e == EulerError::StepsExhausted && last.steps == usize::MAX
                ||| is_stable_dt(last, Err(e))
                ||| exists|dt: K::Real| #[trigger]
                    is_clipped(last, t_end, dt) && is_unforced_outcome(last, dt, last, Err(e))
            }
        },
    }
}

/// The mass density of a cell, as a quantity to integrate.
pub open spec fn masses<R>() -> spec_fn(Conserved<R>, R) -> bool {
    |u: Conserved<R>, q: R| q == u.rho
}

/// The energy density of a cell, as a quantity to integrate.
pub open spec fn energies<R>() -> spec_fn(Conserved<R>, R) -> bool {
    |u: Conserved<R>, q: R| q == u.energy
}

/// `after` is `before` plus the quantity of one cell.
pub open spec fn is_added<K: Scheme1d>(
    scheme: K,
    part: spec_fn(Conserved<K::Real>, K::Real) -> bool,
    u: Conserved<K::Real>,
    before: K::Real,
    after: K::Real,
) -> bool {
    exists|q: K::Real|
        #[trigger] part(u, q) && call_ensures(K::plus, (&scheme, before, q), after)
}

/// `run[i]` is the sum over the first `i` cells.
pub open spec fn is_running_sum<K: Scheme1d>(
    scheme: K,
    part: spec_fn(Conserved<K::Real>, K::Real) -> bool,
    cells: Seq<Conserved<K::Real>>,
    run: Seq<K::Real>,
) -> bool {
    &&& run.len() == cells.len() + 1
    &&& call_ensures(K::zero, (&scheme,), run[0])
    &&& forall|i: int|
        #![trigger cells[i]]
        0 <= i < cells.len() ==> is_added(scheme, part, cells[i], run[i], run[i + 1])
}

/// `total` is the domain integral of a per-cell quantity.
pub open spec fn is_integral<K: Scheme1d>(
    pre: Domain1d<K>,
    part: spec_fn(Conserved<K::Real>, K::Real) -> bool,
    total: K::Real,
) -> bool {
    exists|run: Seq<K::Real>| #[trigger]
        is_running_sum(pre.scheme, part, pre.cells, run) && call_ensures(
            K::integral,
            (&pre.scheme, run.last()),
            total,
        )
}

/// An integral of a quantity is an integral of any that allows its values.
proof fn lemma_integral_widens<K: Scheme1d>(
    pre: Domain1d<K>,
    narrow: spec_fn(Conserved<K::Real>, K::Real) -> bool,
    wide: spec_fn(Conserved<K::Real>, K::Real) -> bool,
    total: K::Real,
)
    requires
        forall|u: Conserved<K::Real>, q: K::Real| #[trigger] narrow(u, q) ==> wide(u, q),
        is_integral(pre, narrow, total),
    ensures
        is_integral(pre, wide, total),
{
    let run = choose|run: Seq<K::Real>| #[trigger]
        is_running_sum(pre.scheme, narrow, pre.cells, run) && call_ensures(
            K::integral,
            (&pre.scheme, run.last()),
            total,
        );
    assert forall|i: int| 0 <= i < pre.cells.len() implies is_added(
        pre.scheme,
        wide,
        #[trigger] pre.cells[i],
        run[i],
        run[i + 1],
    ) by {
        assert(is_added(pre.scheme, narrow, pre.cells[i], run[i], run[i + 1]));
        let q = choose|q: K::Real|
            #[trigger] narrow(pre.cells[i], q) && call_ensures(
                K::plus,
                (&pre.scheme, run[i], q),
                run[i + 1],
            );
        assert(wide(pre.cells[i], q));
    }
    assert(is_running_sum(pre.scheme, wide, pre.cells, run));
}

/// Total of a measured quantity over a line of cells.
pub open spec fn tally<S>(stored: spec_fn(S) -> real, cells: Seq<S>) -> real
    decreases cells.len(),
{
    if cells.len() == 0 {
        0real
    } else {
        tally(stored, cells.drop_last()) + stored(cells.last())
    }
}

/// One of the conserved densities.
pub enum Quantity {
    Mass,
    Momentum,
    Energy,
}

/// How much of a quantity a state or a flux has.
pub open spec fn amount<R>(q: Quantity, u: Conserved<R>) -> R {
    match q {
        Quantity::Mass => u.rho,
        Quantity::Momentum => u.mom,
        Quantity::Energy => u.energy,
    }
}

/// What a quantity of a state is worth.
pub open spec fn measured<R>(q: Quantity, worth: spec_fn(R) -> real) -> spec_fn(
    Conserved<R>,
) -> real {
    |u: Conserved<R>| worth(amount(q, u))
}

/// What a flux carries of a quantity, of which a cell takes the share `lambda`.
pub open spec fn carried<R>(q: Quantity, worth: spec_fn(R) -> real, lambda: real) -> spec_fn(
    Conserved<R>,
) -> real {
    |f: Conserved<R>| lambda * worth(amount(q, f))
}

/// The arithmetic of a step is exact, and the share of a flux difference that acts
/// on a cell in `dt` is worth `lambda`.
pub open spec fn is_exact<K: Scheme1d>(
    scheme: K,
    dt: K::Real,
    worth: spec_fn(K::Real) -> real,
    lambda: real,
) -> bool {
    &&& is_exact_in(scheme, worth)
    &&& forall|weight: K::Real| #[trigger]
        call_ensures(K::weight, (&scheme, dt), weight) ==> worth(weight) == lambda
}

/// The flux difference moves a quantity and creates none: what a cell gains is
/// what its lower interface carries in less what its upper one carries out.
spec fn moves_only<K: Scheme1d>(
    scheme: K,
    dt: K::Real,
    stored: spec_fn(Conserved<K::Real>) -> real,
    carried: spec_fn(Conserved<K::Real>) -> real,
) -> bool {
    forall|u: Conserved<K::Real>, lo: Conserved<K::Real>, hi: Conserved<K::Real>, v: Conserved<K::Real>| #[trigger]
        is_advanced(scheme, dt, u, lo, hi, v) ==> stored(v) == stored(u) + carried(
            lo,
        ) - carried(hi)
}

/// Where differences are exact, every quantity is moved and none is created.
proof fn lemma_exact_moves<K: Scheme1d>(
    scheme: K,
    dt: K::Real,
    q: Quantity,
    worth: spec_fn(K::Real) -> real,
    lambda: real,
)
    requires
        is_exact(scheme, dt, worth, lambda),
    ensures
        moves_only(scheme, dt, measured(q, worth), carried(q, worth, lambda)),
{
    assert forall|
        u: Conserved<K::Real>,
        lo: Conserved<K::Real>,
        hi: Conserved<K::Real>,
        v: Conserved<K::Real>,
    | #[trigger] is_advanced(scheme, dt, u, lo, hi, v) implies measured(q, worth)(v) == measured(
        q,
        worth,
    )(u) + carried(q, worth, lambda)(lo) - carried(q, worth, lambda)(hi) by {
        let weight = choose|weight: K::Real| #[trigger]
            call_ensures(K::weight, (&scheme, dt), weight) && is_flux_update(
                scheme,
                weight,
                u,
                lo,
                hi,
                v,
            );
        lemma_update_moves(scheme, weight, u, lo, hi, v, worth);
        let (a, b) = (worth(amount(q, lo)), worth(amount(q, hi)));
        assert(lambda * (b - a) == lambda * b - lambda * a) by (nonlinear_arith);
    }
}

/// The source leaves a quantity alone.
pub open spec fn heating_keeps<K: Scheme1d>(
    scheme: K,
    dt: K::Real,
    rates: spec_fn(int, K::Real, K::Real) -> bool,
    stored: spec_fn(Conserved<K::Real>) -> real,
) -> bool {
    forall|i: int, x: K::Real, rate: K::Real, u: Conserved<K::Real>, v: Conserved<K::Real>|
        #[trigger] rates(i, x, rate) && #[trigger] is_warmed(scheme, dt, u, rate, v) ==> stored(v) == stored(u)
}

/// Every operation of a step is a function of its arguments.
pub open spec fn is_deterministic<K: Scheme1d>(scheme: K, dt: K::Real) -> bool {
    &&& is_reproducible(scheme)
    &&& forall|x: K::Real, y: K::Real|
        #![trigger call_ensures(K::half_weight, (&scheme, dt), x), call_ensures(K::half_weight, (&scheme, dt), y)]
        call_ensures(K::half_weight, (&scheme, dt), x) && call_ensures(
            K::half_weight,
            (&scheme, dt),
            y,
        ) ==> x == y
}

/// The faces of a cell are a function of the cell and its neighbours.
pub(crate) proof fn lemma_cell_faces_are_one<K: Scheme1d>(
    scheme: K,
    dt: K::Real,
    a: Conserved<K::Real>,
    b: Conserved<K::Real>,
    c: Conserved<K::Real>,
    f: (Conserved<K::Real>, Conserved<K::Real>),
    g: (Conserved<K::Real>, Conserved<K::Real>),
)
    requires
        is_deterministic(scheme, dt),
        are_cell_faces(scheme, dt, a, b, c, f),
        are_cell_faces(scheme, dt, a, b, c, g),
    ensures
        f == g,
{
    let half = choose|half: K::Real| #[trigger]
        call_ensures(K::half_weight, (&scheme, dt), half) && are_hancock_faces(
            scheme,
            half,
            a,
            b,
            c,
            f,
        );
    lemma_faces_are_one(scheme, half, a, b, c, f, g);
}

/// The share of a flux difference that acts on a cell is a function of the step.
pub open spec fn weighs_reproducibly<K: Scheme1d>(scheme: K, dt: K::Real) -> bool {
    forall|x: K::Real, y: K::Real|
        #![trigger call_ensures(K::weight, (&scheme, dt), x), call_ensures(K::weight, (&scheme, dt), y)]
        call_ensures(K::weight, (&scheme, dt), x) && call_ensures(K::weight, (&scheme, dt), y) ==> x
            == y
}

/// The update of a cell is a function of the cell and of the fluxes through its
/// interfaces.
pub(crate) proof fn lemma_advance_is_one<K: Scheme1d>(
    scheme: K,
    dt: K::Real,
    u: Conserved<K::Real>,
    lo: Conserved<K::Real>,
    hi: Conserved<K::Real>,
    v: Conserved<K::Real>,
    w: Conserved<K::Real>,
)
    requires
        is_reproducible(scheme),
        weighs_reproducibly(scheme, dt),
        is_advanced(scheme, dt, u, lo, hi, v),
        is_advanced(scheme, dt, u, lo, hi, w),
    ensures
        v == w,
{
    let weight = choose|weight: K::Real| #[trigger]
        call_ensures(K::weight, (&scheme, dt), weight) && is_flux_update(
            scheme,
            weight,
            u,
            lo,
            hi,
            v,
        );
    lemma_flux_update_is_one(scheme, weight, u, lo, hi, v, w);
}

/// Faces and fluxes of a line are functions of its padded cells.
pub(crate) proof fn lemma_faces_and_fluxes_are_one<K: Scheme1d>(
    scheme: K,
    dt: K::Real,
    padded: Seq<Conserved<K::Real>>,
    faces: Seq<(Conserved<K::Real>, Conserved<K::Real>)>,
    other: Seq<(Conserved<K::Real>, Conserved<K::Real>)>,
)
    requires
        is_deterministic(scheme, dt),
        are_faces(scheme, dt, padded, faces),
        are_faces(scheme, dt, padded, other),
    ensures
        faces == other,
        forall|f: Seq<Conserved<K::Real>>, g: Seq<Conserved<K::Real>>| #[trigger]
            are_fluxes(scheme, faces, f) && #[trigger] are_fluxes(scheme, other, g) ==> f == g,
{
    assert forall|m: int| 0 <= m < faces.len() implies faces[m] == other[m] by {
        lemma_cell_faces_are_one(
            scheme,
            dt,
            padded[m],
            padded[m + 1],
            padded[m + 2],
            faces[m],
            other[m],
        );
    }
    assert(faces =~= other);
    assert forall|f: Seq<Conserved<K::Real>>, g: Seq<Conserved<K::Real>>| #[trigger]
        are_fluxes(scheme, faces, f) && #[trigger] are_fluxes(scheme, other, g) implies f == g by {
        assert forall|j: int| 0 <= j < f.len() implies f[j] == g[j] by {
            lemma_hllc_is_one(scheme, faces[j].1, faces[j + 1].0, f[j], g[j]);
        }
        assert(f =~= g);
    }
}

/// Sum of the flux differences over the first `m` cells: all inner interfaces
/// cancel.
proof fn lemma_fluxes_telescope<K: Scheme1d>(
    pre: Domain1d<K>,
    dt: K::Real,
    rates: spec_fn(int, K::Real, K::Real) -> bool,
    faces: Seq<(Conserved<K::Real>, Conserved<K::Real>)>,
    fluxes: Seq<Conserved<K::Real>>,
    updated: Seq<Conserved<K::Real>>,
    stored: spec_fn(Conserved<K::Real>) -> real,
    carried: spec_fn(Conserved<K::Real>) -> real,
    m: int,
)
    requires
        0 <= m <= pre.cells.len(),
        is_update(pre, dt, rates, faces, fluxes, updated),
        moves_only(pre.scheme, dt, stored, carried),
        heating_keeps(pre.scheme, dt, rates, stored),
    ensures
        tally(stored, updated.subrange(0, m)) == tally(stored, pre.cells.subrange(0, m)) + carried(
            fluxes[0],
        ) - carried(fluxes[m]),
    decreases m,
{
    if m > 0 {
        let i = m - 1;
        lemma_fluxes_telescope(pre, dt, rates, faces, fluxes, updated, stored, carried, i);
        assert(updated.subrange(0, m).drop_last() =~= updated.subrange(0, i));
        assert(pre.cells.subrange(0, m).drop_last() =~= pre.cells.subrange(0, i));
        assert(is_cell_update(pre, dt, rates, fluxes, i, updated[i]));
        let u = choose|u: Conserved<K::Real>|
            {
                &&& #[trigger] is_advanced(
                    pre.scheme,
                    dt,
                    pre.cells[i],
                    fluxes[i],
                    fluxes[i + 1],
                    u,
                )
                &&& is_heated(pre.scheme, dt, rates, i, u, updated[i])
            };
        assert(stored(u) == stored(pre.cells[i]) + carried(fluxes[i]) - carried(fluxes[i + 1]));
        let (x, rate) = choose|x: K::Real, rate: K::Real|
            {
                &&& #[trigger] rates(i, x, rate)
                &&& call_ensures(K::x_centre, (&pre.scheme, i as usize), x)
                &&& is_warmed(pre.scheme, dt, u, rate, updated[i])
            };
        assert(stored(updated[i]) == stored(u));
    } else {
        assert(updated.subrange(0, 0) =~= pre.cells.subrange(0, 0));
    }
}

/// Conservation. A quantity that the source leaves alone changes over a step by
/// what the two end interfaces carry, and by nothing else, where the differences of
/// the arithmetic are exact. Mass and momentum are left alone by every source.
pub proof fn law_step_conserves<K: Scheme1d>(
    pre: Domain1d<K>,
    dt: K::Real,
    rates: spec_fn(int, K::Real, K::Real) -> bool,
    post: Domain1d<K>,
    q: Quantity,
    worth: spec_fn(K::Real) -> real,
    lambda: real,
)
    requires
        is_step(pre, dt, rates, post),
        is_exact(pre.scheme, dt, worth, lambda),
        heating_keeps(pre.scheme, dt, rates, measured(q, worth)),
    ensures
        exists|faces: Seq<(Conserved<K::Real>, Conserved<K::Real>)>, fluxes: Seq<Conserved<K::Real>>|
            {
                &&& #[trigger] is_update(pre, dt, rates, faces, fluxes, post.cells)
                &&& tally(measured(q, worth), post.cells) == tally(measured(q, worth), pre.cells) + carried(q, worth, lambda)(fluxes.first())
                    - carried(q, worth, lambda)(fluxes.last())
            },
{
    lemma_exact_moves(pre.scheme, dt, q, worth, lambda);
    let (faces, fluxes) = choose|
        faces: Seq<(Conserved<K::Real>, Conserved<K::Real>)>,
        fluxes: Seq<Conserved<K::Real>>,
    | #[trigger]
        is_update(pre, dt, rates, faces, fluxes, post.cells) && is_flux_outcome(
            pre,
            dt,
            faces,
            Ok(fluxes),
        );
    let n = pre.cells.len() as int;
    lemma_fluxes_telescope(pre, dt, rates, faces, fluxes, post.cells, measured(q, worth), carried(q, worth, lambda), n);
    assert(post.cells.subrange(0, n) =~= post.cells);
    assert(pre.cells.subrange(0, n) =~= pre.cells);
}

/// Conservation in a periodic domain: the two ends are one interface, so the
/// total does not change at all.
pub proof fn law_periodic_step_conserves<K: Scheme1d>(
    pre: Domain1d<K>,
    dt: K::Real,
    rates: spec_fn(int, K::Real, K::Real) -> bool,
    post: Domain1d<K>,
    q: Quantity,
    worth: spec_fn(K::Real) -> real,
    lambda: real,
)
    requires
        pre.valid(),
        pre.boundary == Boundary::Periodic,
        is_step(pre, dt, rates, post),
        is_deterministic(pre.scheme, dt),
        is_exact(pre.scheme, dt, worth, lambda),
        heating_keeps(pre.scheme, dt, rates, measured(q, worth)),
    ensures
        tally(measured(q, worth), post.cells) == tally(measured(q, worth), pre.cells),
{
    law_step_conserves(pre, dt, rates, post, q, worth, lambda);
    let (faces, fluxes) = choose|
        faces: Seq<(Conserved<K::Real>, Conserved<K::Real>)>,
        fluxes: Seq<Conserved<K::Real>>,
    |
        {
            &&& #[trigger] is_update(pre, dt, rates, faces, fluxes, post.cells)
            &&& tally(measured(q, worth), post.cells) == tally(measured(q, worth), pre.cells) + carried(q, worth, lambda)(fluxes.first())
                - carried(q, worth, lambda)(fluxes.last())
        };
    let n = pre.cells.len() as int;
    let padded = ghosted(pre.cells, pre.boundary);
    assert(padded[0] == padded[n] && padded[1] == padded[n + 1] && padded[2] == padded[n + 2]
        && padded[3] == padded[n + 3]);
    lemma_cell_faces_are_one(pre.scheme, dt, padded[0], padded[1], padded[2], faces[0], faces[n]);
    lemma_cell_faces_are_one(
        pre.scheme,
        dt,
        padded[1],
        padded[2],
        padded[3],
        faces[1],
        faces[n + 1],
    );
    lemma_hllc_is_one(pre.scheme, faces[0].1, faces[1].0, fluxes[0], fluxes[n]);
}

/// A uniform state is a fixed point: where equal values cancel and the source
/// leaves a cell `c` as it is, a domain filled with `c` stays filled with it, under
/// either boundary.
pub proof fn law_uniform_state_is_fixed<K: Scheme1d>(
    pre: Domain1d<K>,
    dt: K::Real,
    rates: spec_fn(int, K::Real, K::Real) -> bool,
    post: Domain1d<K>,
    c: Conserved<K::Real>,
    nothing: K::Real,
)
    requires
        pre.valid(),
        forall|i: int| 0 <= i < pre.cells.len() ==> #[trigger] pre.cells[i] == c,
        is_step(pre, dt, rates, post),
        is_deterministic(pre.scheme, dt),
        cancels(pre.scheme, nothing),
        forall|i: int, x: K::Real, rate: K::Real, v: Conserved<K::Real>|
            #[trigger] rates(i, x, rate) && #[trigger] is_warmed(pre.scheme, dt, c, rate, v) ==> v == c,
    ensures
        post.cells == pre.cells,
{
    let (faces, fluxes) = choose|
        faces: Seq<(Conserved<K::Real>, Conserved<K::Real>)>,
        fluxes: Seq<Conserved<K::Real>>,
    | #[trigger]
        is_update(pre, dt, rates, faces, fluxes, post.cells) && is_flux_outcome(
            pre,
            dt,
            faces,
            Ok(fluxes),
        );
    let padded = ghosted(pre.cells, pre.boundary);
    assert forall|k: int| 0 <= k < padded.len() implies #[trigger] padded[k] == c by {
        assert(0 <= ghost_source(pre.boundary, pre.cells.len() as int, k) < pre.cells.len());
    }
    assert forall|m: int| 0 <= m < faces.len() implies #[trigger] faces[m] == (c, c) by {
        assert(padded[m] == c && padded[m + 1] == c && padded[m + 2] == c);
        assert(are_cell_faces(pre.scheme, dt, c, c, c, faces[m]));
        let half = choose|half: K::Real| #[trigger]
            call_ensures(K::half_weight, (&pre.scheme, dt), half) && are_hancock_faces(
                pre.scheme,
                half,
                c,
                c,
                c,
                faces[m],
            );
        lemma_uniform_faces(pre.scheme, half, c, faces[m], nothing);
    }
    assert forall|j: int| 0 <= j < fluxes.len() implies #[trigger] fluxes[j] == fluxes[0] by {
        assert(faces[j] == (c, c) && faces[j + 1] == (c, c));
        assert(faces[0] == (c, c) && faces[1] == (c, c));
        assert(is_hllc(pre.scheme, c, c, fluxes[j]));
        assert(is_hllc(pre.scheme, c, c, fluxes[0]));
        lemma_hllc_is_one(pre.scheme, c, c, fluxes[j], fluxes[0]);
    }
    assert forall|i: int| 0 <= i < post.cells.len() implies post.cells[i] == pre.cells[i] by {
        assert(is_cell_update(pre, dt, rates, fluxes, i, post.cells[i]));
        assert(fluxes[i] == fluxes[0] && fluxes[i + 1] == fluxes[0]);
        let u = choose|u: Conserved<K::Real>|
            {
                &&& #[trigger] is_advanced(
                    pre.scheme,
                    dt,
                    pre.cells[i],
                    fluxes[i],
                    fluxes[i + 1],
                    u,
                )
                &&& is_heated(pre.scheme, dt, rates, i, u, post.cells[i])
            };
        let weight = choose|weight: K::Real| #[trigger]
            call_ensures(K::weight, (&pre.scheme, dt), weight) && is_flux_update(
                pre.scheme,
                weight,
                pre.cells[i],
                fluxes[i],
                fluxes[i + 1],
                u,
            );
        lemma_uniform_flux(pre.scheme, weight, c, fluxes[0], u, nothing);
    }
    assert(post.cells =~= pre.cells);
}

proof fn lemma_source_telescopes<K: Scheme1d>(
    pre: Domain1d<K>,
    dt: K::Real,
    rates: spec_fn(int, K::Real, K::Real) -> bool,
    faces: Seq<(Conserved<K::Real>, Conserved<K::Real>)>,
    fluxes: Seq<Conserved<K::Real>>,
    updated: Seq<Conserved<K::Real>>,
    stored: spec_fn(Conserved<K::Real>) -> real,
    carried: spec_fn(Conserved<K::Real>) -> real,
    given: spec_fn(K::Real) -> real,
    m: int,
) -> (q: Seq<K::Real>)
    requires
        0 <= m <= pre.cells.len(),
        is_update(pre, dt, rates, faces, fluxes, updated),
        moves_only(pre.scheme, dt, stored, carried),
        heating_gives(pre.scheme, dt, stored, given),
    ensures
        q.len() == m,
        forall|i: int| 0 <= i < m ==> is_rate_of(pre.scheme, rates, i, #[trigger] q[i]),
        tally(stored, updated.subrange(0, m)) == tally(stored, pre.cells.subrange(0, m)) + carried(
            fluxes[0],
        ) - carried(fluxes[m]) + tally(given, q),
    decreases m,
{
    if m > 0 {
        let i = m - 1;
        let before = lemma_source_telescopes(
            pre,
            dt,
            rates,
            faces,
            fluxes,
            updated,
            stored,
            carried,
            given,
            i,
        );
        assert(updated.subrange(0, m).drop_last() =~= updated.subrange(0, i));
        assert(pre.cells.subrange(0, m).drop_last() =~= pre.cells.subrange(0, i));
        assert(is_cell_update(pre, dt, rates, fluxes, i, updated[i]));
        let u = choose|u: Conserved<K::Real>|
            {
                &&& #[trigger] is_advanced(
                    pre.scheme,
                    dt,
                    pre.cells[i],
                    fluxes[i],
                    fluxes[i + 1],
                    u,
                )
                &&& is_heated(pre.scheme, dt, rates, i, u, updated[i])
            };
        let (x, rate) = choose|x: K::Real, rate: K::Real|
            {
                &&& #[trigger] rates(i, x, rate)
                &&& call_ensures(K::x_centre, (&pre.scheme, i as usize), x)
                &&& is_warmed(pre.scheme, dt, u, rate, updated[i])
            };
        let q = before.push(rate);
        assert(q.drop_last() =~= before);
        assert(is_rate_of(pre.scheme, rates, i, rate));
        q
    } else {
        assert(updated.subrange(0, 0) =~= pre.cells.subrange(0, 0));
        Seq::empty()
    }
}

/// `rate` is the rate of the source at the centre of cell `i`.
pub open spec fn is_rate_of<K: Scheme1d>(
    scheme: K,
    rates: spec_fn(int, K::Real, K::Real) -> bool,
    i: int,
    rate: K::Real,
) -> bool {
    exists|x: K::Real| #[trigger] rates(i, x, rate) && call_ensures(K::x_centre, (&scheme, i as usize), x)
}

/// A source that acts for `dt` adds to what a cell stores what it gives.
pub open spec fn heating_gives<K: Scheme1d>(
    scheme: K,
    dt: K::Real,
    stored: spec_fn(Conserved<K::Real>) -> real,
    given: spec_fn(K::Real) -> real,
) -> bool {
    forall|u: Conserved<K::Real>, rate: K::Real, v: Conserved<K::Real>| #[trigger]
        is_warmed(scheme, dt, u, rate, v) ==> stored(v) == stored(u) + given(rate)
}

/// What a step with a source gains is what the source gave, but for what the two
/// end interfaces carry.
pub proof fn law_gain_is_what_the_source_gave<K: Scheme1d>(
    pre: Domain1d<K>,
    dt: K::Real,
    rates: spec_fn(int, K::Real, K::Real) -> bool,
    post: Domain1d<K>,
    q: Quantity,
    worth: spec_fn(K::Real) -> real,
    lambda: real,
    given: spec_fn(K::Real) -> real,
)
    requires
        is_step(pre, dt, rates, post),
        is_exact(pre.scheme, dt, worth, lambda),
        heating_gives(pre.scheme, dt, measured(q, worth), given),
    ensures
        exists|
            faces: Seq<(Conserved<K::Real>, Conserved<K::Real>)>,
            fluxes: Seq<Conserved<K::Real>>,
            given_rates: Seq<K::Real>,
        |
            {
                &&& #[trigger] is_update(pre, dt, rates, faces, fluxes, post.cells)
                &&& given_rates.len() == pre.cells.len()
                &&& forall|i: int|
                    0 <= i < given_rates.len() ==> is_rate_of(pre.scheme, rates, i, #[trigger] given_rates[i])
                &&& tally(measured(q, worth), post.cells) - tally(measured(q, worth), pre.cells) == #[trigger] tally(
                    given,
                    given_rates,
                ) + carried(q, worth, lambda)(fluxes.first()) - carried(q, worth, lambda)(fluxes.last())
            },
{
    lemma_exact_moves(pre.scheme, dt, q, worth, lambda);
    let (faces, fluxes) = choose|
        faces: Seq<(Conserved<K::Real>, Conserved<K::Real>)>,
        fluxes: Seq<Conserved<K::Real>>,
    | #[trigger]
        is_update(pre, dt, rates, faces, fluxes, post.cells) && is_flux_outcome(
            pre,
            dt,
            faces,
            Ok(fluxes),
        );
    let n = pre.cells.len() as int;
    let given_rates = lemma_source_telescopes(
        pre,
        dt,
        rates,
        faces,
        fluxes,
        post.cells,
        measured(q, worth),
        carried(q, worth, lambda),
        given,
        n,
    );
    assert(post.cells.subrange(0, n) =~= post.cells);
    assert(pre.cells.subrange(0, n) =~= pre.cells);
    assert(tally(measured(q, worth), post.cells) - tally(measured(q, worth), pre.cells) == tally(given, given_rates) + carried(q, worth, lambda)(
        fluxes.first(),
    ) - carried(q, worth, lambda)(fluxes.last()));
}

} // verus!

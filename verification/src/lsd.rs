//! A one-dimensional laser-supported detonation: gas dynamics, the beam's
//! attenuation through the gas, and the deposition that couples them.
//!
//! The beam enters at the first cell and is marched cell by cell; what a cell
//! absorbs is the difference of the intensities at its two faces, so that the
//! sum over the column is what the beam lost. A coupled step is half a
//! deposition, a hydro step and half a deposition. The arithmetic belongs to a
//! [`Beam1d`].
use crate::euler1d::{
    carried, constant_rate, energies, ghosted, heating_keeps, is_build, is_deterministic, is_exact,
    is_heated, is_heating, is_heating_outcome, is_integral, is_stable_dt, is_step,
    is_unforced_outcome, is_update, is_warmed, law_step_conserves, lemma_cell_faces_are_one,
    lemma_heating_widens, measured, rates_of, tally, viewed, Boundary, Conserved, Domain1d, Euler1d,
    EulerError, Primitive, Quantity, Scheme1d, N_GHOST,
};
use crate::medium::{is_uniform, Medium};
use crate::optics::Optics;
use crate::plane::Plane;
use crate::plasmaprops::{
    is_inversion, is_ion_density, is_lookup, is_singly_ionized, PlasmaProperties, PlasmaScale,
    PlasmaTable,
};
use crate::riemann::lemma_hllc_is_one;
use crate::table::{TableError, Tabulation};
use vstd::prelude::*;
use vstd::slice::slice_subrange;

verus! {

/// What to do when the plasma runs hotter than the property table's range.
#[derive(Debug, Clone, Copy, PartialEq, Eq, Structural)]
pub enum IonizationCeiling {
    /// Stop, naming the temperature.
    Refuse,
    /// Go on, and record it.
    Flag,
}

/// How the gas absorbs the beam.
#[derive(Debug)]
pub enum Absorption<R> {
    /// A grey plasma: `alpha` wherever the specific internal energy exceeds
    /// `e_ignite`, nothing below it.
    GreyThreshold { alpha: R, e_ignite: R },
    /// Thermal inverse bremsstrahlung with the ionization of the table.
    InverseBremsstrahlung {
        wavelength: R,
        gaunt: R,
        table: PlasmaTable<R>,
        ceiling: IonizationCeiling,
    },
}

/// Where and how hard to light the spark.
#[derive(Debug, Clone, Copy, PartialEq)]
pub struct SeededIgnition<R> {
    pub centre: R,
    pub width: R,
    pub pressure: R,
}

/// Why a column could not be built, advanced or trusted.
#[derive(Debug, PartialEq)]
pub enum LsdError<R> {
    BadIncident,
    BadLength,
    /// The seed is not a hot spot.
    BadSeed,
    Hydro(EulerError),
    Table(TableError),
    /// The plasma is above the table's range and the model refuses that.
    AboveCeiling { temperature: R },
    NoStableStep,
    /// No front to track.
    NoFront,
    FrontVanished,
    /// Nothing absorbs, so there is no front to describe.
    NothingAbsorbs,
    /// The absorption length spans too few cells; a spacing of `finest_dx` would do.
    Unresolved { cells: R, finest_dx: R },
    /// The absorption length spans too much of the domain: the given share of it.
    Volumetric { share: R },
    /// Too little of the beam reaches the front: the given fraction.
    Extinguished { fraction: R },
    /// The pressure rise is not that of a strong detonation: the given ratio to
    /// ambient.
    WeakFront { ratio: R },
    /// The column has no samples or no slabs.
    EmptyColumn { n: usize, slabs: usize },
    /// The first slab whose extinction is not physical.
    BadExtinction { slab: usize },
    /// The cells do not fall into that many equal slabs.
    RaggedBinning { cells: usize, slabs: usize },
    StepsExhausted,
}

impl<R> LsdError<R> {
    /// What is wrong and, where there is one, the remedy. The numbers are in the
    /// refusal itself.
    pub fn text(&self) -> (s: &'static str)
        ensures
            s@ == (match self {
                LsdError::BadIncident => "the incident intensity is not positive"@,
                LsdError::BadLength => "the column has no length"@,
                LsdError::BadSeed => "the seed is not a hot spot"@,
                LsdError::Hydro(_) => "the gas dynamics refused"@,
                LsdError::Table(_) => "the state is outside the property table"@,
                LsdError::AboveCeiling { .. } => "the plasma is above the range of the property table"@,
                LsdError::NoStableStep => "no step of the coupling is stable"@,
                LsdError::NoFront => "there is no front to track"@,
                LsdError::FrontVanished => "the front vanished"@,
                LsdError::NothingAbsorbs => "nothing absorbs: there is no front, and the detonation model has nothing to describe"@,
                LsdError::Unresolved { .. } => "the deposition is unresolved. Refine to the given spacing, or lower the absorption"@,
                LsdError::Volumetric { .. } => "the deposition is volumetric rather than a front, which is the LSC regime and out of scope"@,
                LsdError::Extinguished { .. } => "the beam is being extinguished upstream of the front"@,
                LsdError::WeakFront { .. } => "the peak pressure is too low for the strong-detonation closed form"@,
                LsdError::EmptyColumn { .. } => "the plasma column is empty"@,
                LsdError::BadExtinction { .. } => "a slab has an extinction that is not physical"@,
                LsdError::RaggedBinning { .. } => "the cells do not fall into that many equal slabs"@,
                LsdError::StepsExhausted => "the step counter is full"@,
            }),
    {
        match self {
            LsdError::BadIncident => "the incident intensity is not positive",
            LsdError::BadLength => "the column has no length",
            LsdError::BadSeed => "the seed is not a hot spot",
            LsdError::Hydro(_) => "the gas dynamics refused",
            LsdError::Table(_) => "the state is outside the property table",
            LsdError::AboveCeiling { .. } => "the plasma is above the range of the property table",
            LsdError::NoStableStep => "no step of the coupling is stable",
            LsdError::NoFront => "there is no front to track",
            LsdError::FrontVanished => "the front vanished",
            LsdError::NothingAbsorbs => "nothing absorbs: there is no front, and the detonation model has nothing to describe",
            LsdError::Unresolved { .. } => "the deposition is unresolved. Refine to the given spacing, or lower the absorption",
            LsdError::Volumetric { .. } => "the deposition is volumetric rather than a front, which is the LSC regime and out of scope",
            LsdError::Extinguished { .. } => "the beam is being extinguished upstream of the front",
            LsdError::WeakFront { .. } => "the peak pressure is too low for the strong-detonation closed form",
            LsdError::EmptyColumn { .. } => "the plasma column is empty",
            LsdError::BadExtinction { .. } => "a slab has an extinction that is not physical",
            LsdError::RaggedBinning { .. } => "the cells do not fall into that many equal slabs",
            LsdError::StepsExhausted => "the step counter is full",
        }
    }
}

/// The arithmetic of the coupling, on one cell, one face or one instant.
pub trait Beam1d: Scheme1d {
    /// The axes of the property table.
    type Axes: PlasmaScale + Tabulation<Real = Self::Real>;

    fn axes(&self) -> Self::Axes;

    fn internal_energy(&self, w: Primitive<Self::Real>) -> Self::Real;

    /// Whether `a > b`.
    fn exceeds(&self, a: Self::Real, b: Self::Real) -> bool;

    /// Whether `a >= b`.
    fn reaches(&self, a: Self::Real, b: Self::Real) -> bool;

    fn one(&self) -> Self::Real;

    /// A value below every other.
    fn lowest(&self) -> Self::Real;

    fn ratio(&self, a: Self::Real, b: Self::Real) -> Self::Real;

    /// Free-free absorption coefficient of a plasma of mean ion charge `z` at a
    /// temperature.
    fn free_free(
        &self,
        wavelength: Self::Real,
        gaunt: Self::Real,
        z: Self::Real,
        n_e: Self::Real,
        n_i: Self::Real,
        t: Self::Real,
    ) -> Self::Real;

    /// Intensity behind a cell of absorption `alpha`.
    fn attenuate(&self, intensity: Self::Real, alpha: Self::Real) -> Self::Real;

    /// Power density absorbed between two faces.
    fn absorbed(&self, entering: Self::Real, leaving: Self::Real) -> Self::Real;

    /// Banked energy with a summed power density over `dt` added.
    fn bank(&self, total: Self::Real, dt: Self::Real, sum: Self::Real) -> Self::Real;

    /// Relative gap between the energy gained and the energy deposited.
    fn budget_gap(
        &self,
        energy: Self::Real,
        initial: Self::Real,
        deposited: Self::Real,
    ) -> Self::Real;

    /// Signal speed of a state after a source `q` has acted for half of `dt`.
    fn predicted_speed(&self, w: Primitive<Self::Real>, q: Self::Real, dt: Self::Real) -> Self::Real;

    /// Whether the iteration from `dt` to `next` has settled.
    fn is_settled(&self, next: Self::Real, dt: Self::Real) -> bool;

    /// A step a hair shorter.
    fn shave(&self, dt: Self::Real) -> Self::Real;

    /// Whether the peak pressure is that of a front.
    fn is_front(&self, p_max: Self::Real, ambient: Primitive<Self::Real>) -> bool;

    /// Pressure half-way up the rise.
    fn half_rise(&self, p_max: Self::Real, ambient: Primitive<Self::Real>) -> Self::Real;

    /// Where the pressure passes `level` between cells `i - 1` and `i`.
    fn crossing(
        &self,
        level: Self::Real,
        before: Primitive<Self::Real>,
        at: Primitive<Self::Real>,
        i: usize,
    ) -> Self::Real;

    /// Mean speed from `x0` at `t0` to `x1` at `t1`, towards the laser.
    fn mean_speed(&self, x0: Self::Real, x1: Self::Real, t0: Self::Real, t1: Self::Real) -> Self::Real;

    /// Fraction of a beam that survives an optical depth.
    fn transmission(&self, depth: Self::Real) -> Self::Real;

    /// Whether a state is still the ambient one.
    fn is_quiet(&self, w: Primitive<Self::Real>, ambient: Primitive<Self::Real>) -> bool;

    /// Whether the column's length is positive and finite.
    fn length_is_valid(&self) -> bool;

    /// Whether a seed is of some width and hotter than ambient.
    fn is_hot_spot(&self, seed: SeededIgnition<Self::Real>, ambient: Primitive<Self::Real>) -> bool;

    /// Whether a position is within half a seed's width of its centre.
    fn is_in_seed(&self, seed: SeededIgnition<Self::Real>, x: Self::Real) -> bool;

    /// Whether an absorption coefficient is that of a plasma at all.
    fn absorbs(&self, alpha: Self::Real) -> bool;

    /// Cells that an absorption length spans.
    fn cells_spanned(&self, alpha: Self::Real) -> Self::Real;

    /// Largest spacing that resolves an absorption length.
    fn finest_spacing(&self, alpha: Self::Real) -> Self::Real;

    /// Share of `n` cells that an absorption length spans.
    fn share_spanned(&self, alpha: Self::Real, n: usize) -> Self::Real;

    /// Whether the absorption length spans enough cells.
    fn is_resolved(&self, alpha: Self::Real) -> bool;

    /// Whether the absorption length is thin against a column of `n` cells.
    fn is_thin(&self, alpha: Self::Real, n: usize) -> bool;

    /// Whether an absorption coefficient is at least half of the largest.
    fn is_strong_absorber(&self, alpha: Self::Real, largest: Self::Real) -> bool;

    /// Whether enough of the beam reaches the front.
    fn is_enough(&self, fraction: Self::Real) -> bool;

    /// Whether a peak pressure is that of a strong detonation.
    fn is_strong(&self, p_max: Self::Real, ambient: Primitive<Self::Real>) -> bool;

    /// Mean of `per` values of the given sum.
    fn mean(&self, sum: Self::Real, per: usize) -> Self::Real;

    /// Thickness of `per` cells.
    fn thickness(&self, per: usize) -> Self::Real;

    /// Whether an extinction is finite and not negative.
    fn is_extinction(&self, alpha: Self::Real) -> bool;
}

/// What a column is, mathematically.
pub struct Column1d<K: Beam1d> {
    pub hydro: Domain1d<K>,
    pub absorption: Absorption<K::Real>,
    pub incident: K::Real,
    pub ambient: Primitive<K::Real>,
    pub deposited: K::Real,
    pub initial_energy: K::Real,
    pub hottest: Option<K::Real>,
    pub above_ceiling: bool,
}

/// Absorption of a state: the coefficient, and the temperature that gave it
/// where the model has one.
pub open spec fn is_absorption<K: Beam1d>(
    k: K,
    absorption: Absorption<K::Real>,
    w: Primitive<K::Real>,
    r: Result<(K::Real, Option<K::Real>), LsdError<K::Real>>,
) -> bool {
    match absorption {
        Absorption::GreyThreshold { alpha, e_ignite } => {
            &&& r matches Ok((a, t)) && t is None && is_grey(k, alpha, e_ignite, w, a)
        },
        Absorption::InverseBremsstrahlung { wavelength, gaunt, table, ceiling } => {
            exists|axes: K::Axes|
                {
                    &&& #[trigger] call_ensures(K::axes, (&k,), axes)
                    &&& {
                        ||| r matches Err(LsdError::Table(e)) && is_inversion(
                            axes,
                            table@,
                            w.rho,
                            w.p,
                            Err(e),
                        )
                        ||| exists|t: K::Real| #[trigger]
                            is_inversion(axes, table@, w.rho, w.p, Ok(t)) && is_bremsstrahlung(
                                k,
                                axes,
                                wavelength,
                                gaunt,
                                table,
                                ceiling,
                                w.p,
                                t,
                                r,
                            )
                    }
                }
        },
    }
}

/// `a` is the absorption coefficient of a state.
pub open spec fn is_coefficient<K: Beam1d>(
    k: K,
    absorption: Absorption<K::Real>,
    w: Primitive<K::Real>,
    a: K::Real,
) -> bool {
    exists|t: Option<K::Real>| #[trigger] is_absorption(k, absorption, w, Ok((a, t)))
}

/// `a` is `alpha` if the state's internal energy exceeds the threshold, else
/// zero.
pub open spec fn is_grey<K: Beam1d>(
    k: K,
    alpha: K::Real,
    e_ignite: K::Real,
    w: Primitive<K::Real>,
    a: K::Real,
) -> bool {
    exists|e: K::Real|
        {
            &&& #[trigger] call_ensures(K::internal_energy, (&k, w), e)
            &&& {
                ||| call_ensures(K::exceeds, (&k, e, e_ignite), true) && a == alpha
                ||| call_ensures(K::exceeds, (&k, e, e_ignite), false) && call_ensures(
                    K::zero,
                    (&k,),
                    a,
                )
            }
        }
}

/// `a` is the free-free absorption coefficient of a plasma at a temperature.
pub open spec fn is_free_free<K: Beam1d>(
    k: K,
    axes: K::Axes,
    wavelength: K::Real,
    gaunt: K::Real,
    found: PlasmaProperties<K::Real>,
    t: K::Real,
    a: K::Real,
) -> bool {
    exists|z: K::Real, n_i: K::Real|
        {
            &&& #[trigger] call_ensures(<K::Axes as PlasmaScale>::charge, (&axes,), z)
            &&& #[trigger] is_ion_density(axes, found, n_i)
            &&& call_ensures(K::free_free, (&k, wavelength, gaunt, z, found.n_e, n_i, t), a)
        }
}

/// The absorption at a temperature and a pressure: refused above the ceiling if
/// the model says so, else the free-free coefficient of the table's plasma.
pub open spec fn is_bremsstrahlung<K: Beam1d>(
    k: K,
    axes: K::Axes,
    wavelength: K::Real,
    gaunt: K::Real,
    table: PlasmaTable<K::Real>,
    ceiling: IonizationCeiling,
    p: K::Real,
    t: K::Real,
    r: Result<(K::Real, Option<K::Real>), LsdError<K::Real>>,
) -> bool {
    let refuses = ceiling == IonizationCeiling::Refuse;
    ||| {
        &&& refuses
        &&& is_singly_ionized(axes, t, true)
        &&& r == Err::<(K::Real, Option<K::Real>), _>(
            LsdError::<K::Real>::AboveCeiling { temperature: t },
        )
    }
    ||| {
        &&& refuses ==> is_singly_ionized(axes, t, false)
        &&& r matches Err(LsdError::Table(e)) && is_lookup(axes, table@, t, p, Err(e))
    }
    ||| {
        &&& refuses ==> is_singly_ionized(axes, t, false)
        &&& exists|found: PlasmaProperties<K::Real>, a: K::Real|
            {
                &&& #[trigger] is_lookup(axes, table@, t, p, Ok(found))
                &&& #[trigger] is_free_free(k, axes, wavelength, gaunt, found, t, a)
                &&& r == Ok::<_, LsdError<K::Real>>((a, Some(t)))
            }
    }
}

impl<R: Copy> Absorption<R> {
    /// Absorption coefficient of a state, and the temperature that gave it
    /// where the model has one.
    pub fn sample<K: Beam1d<Real = R>>(&self, k: &K, w: Primitive<K::Real>) -> (r: Result<
        (R, Option<R>),
        LsdError<R>,
    >)
        ensures
            is_absorption(*k, *self, w, r),
    {
        match self {
            Absorption::GreyThreshold { alpha, e_ignite } => {
                let e: R = k.internal_energy(w);
                let a: R = if k.exceeds(e, *e_ignite) {
                    *alpha
                } else {
                    k.zero()
                };
                Ok((a, None))
            },
            Absorption::InverseBremsstrahlung { wavelength, gaunt, table, ceiling } => {
                let axes: K::Axes = k.axes();
                let t: R = match table.temperature(&axes, w.rho, w.p) {
                    Ok(t) => t,
                    Err(e) => {
                        return Err(LsdError::Table(e));
                    },
                };
                if *ceiling == IonizationCeiling::Refuse {
                    if PlasmaTable::is_singly_ionized_approximation(&axes, t) {
                        return Err(LsdError::AboveCeiling { temperature: t });
                    }
                }
                let found: PlasmaProperties<R> = match table.at(&axes, t, w.p) {
                    Ok(found) => found,
                    Err(e) => {
                        return Err(LsdError::Table(e));
                    },
                };
                let z: R = found.z_bar(&axes);
                let n_i: R = found.n_i(&axes);
                let a: R = k.free_free(*wavelength, *gaunt, z, found.n_e, n_i, t);
                proof {
                    assert(is_free_free(*k, axes, *wavelength, *gaunt, found, t, a));
                }
                Ok((a, Some(t)))
            },
        }
    }

    /// Absorption coefficient of a state.
    pub fn coefficient<K: Beam1d<Real = R>>(&self, k: &K, w: Primitive<K::Real>) -> (r: Result<
        R,
        LsdError<R>,
    >)
        ensures
            match r {
                Ok(a) => is_coefficient(*k, *self, w, a),
                Err(e) => is_absorption(*k, *self, w, Err(e)),
            },
    {
        match self.sample(k, w) {
            Ok((a, t)) => {
                proof {
                    assert(is_absorption(*k, *self, w, Ok((a, t))));
                    assert(is_coefficient(*k, *self, w, a));
                }
                Ok(a)
            },
            Err(e) => Err(e),
        }
    }
}

/// What the column has on record: the hottest temperature seen, and whether one
/// was above the table's range.
pub struct Record<R> {
    pub hottest: Option<R>,
    pub above: bool,
}

/// `after` is `before` with a temperature, if there is one, on record.
pub open spec fn is_recorded<K: Beam1d>(
    k: K,
    before: Record<K::Real>,
    t: Option<K::Real>,
    after: Record<K::Real>,
) -> bool {
    match t {
        None => after == before,
        Some(t) => {
            &&& match before.hottest {
                None => after.hottest == Some(t),
                Some(h) => after.hottest matches Some(g) && call_ensures(K::larger, (&k, h, t), g),
            }
            &&& {
                ||| before.above && after.above
                ||| !before.above && exists|axes: K::Axes| #[trigger]
                    call_ensures(K::axes, (&k,), axes) && is_singly_ionized(axes, t, after.above)
            }
        },
    }
}

/// The absorption of the first cells of a column: `cells[i]` the coefficient
/// and temperature of cell `i`, `records[i]` the record before it.
pub open spec fn is_alpha_run<K: Beam1d>(
    c: Column1d<K>,
    states: Seq<Primitive<K::Real>>,
    samples: Seq<(K::Real, Option<K::Real>)>,
    records: Seq<Record<K::Real>>,
) -> bool {
    &&& states.len() == c.hydro.cells.len()
    &&& forall|i: int|
        0 <= i < states.len() ==> call_ensures(
            K::to_primitive,
            (&c.hydro.scheme, c.hydro.cells[i]),
            #[trigger] states[i],
        )
    &&& records.len() == samples.len() + 1
    &&& samples.len() <= states.len()
    &&& records[0] == (Record { hottest: c.hottest, above: c.above_ceiling })
    &&& forall|i: int|
        #![trigger samples[i]]
        0 <= i < samples.len() ==> is_absorption(
            c.hydro.scheme,
            c.absorption,
            states[i],
            Ok(samples[i]),
        ) && is_recorded(c.hydro.scheme, records[i], samples[i].1, records[i + 1])
}

/// The column with another record.
pub open spec fn with_record<K: Beam1d>(c: Column1d<K>, record: Record<K::Real>) -> Column1d<K> {
    Column1d { hottest: record.hottest, above_ceiling: record.above, ..c }
}

/// The coefficients of a line of samples.
pub open spec fn alphas<R>(samples: Seq<(R, Option<R>)>) -> Seq<R> {
    Seq::new(samples.len(), |i: int| samples[i].0)
}

/// What asking a column for its absorption profile may do. The temperatures
/// seen before a refusal stay on record.
pub open spec fn is_alpha_profile<K: Beam1d>(
    pre: Column1d<K>,
    post: Column1d<K>,
    r: Result<Seq<K::Real>, LsdError<K::Real>>,
) -> bool {
    exists|
        states: Seq<Primitive<K::Real>>,
        samples: Seq<(K::Real, Option<K::Real>)>,
        records: Seq<Record<K::Real>>,
    |
        {
            &&& #[trigger] is_alpha_run(pre, states, samples, records)
            &&& post == with_record(pre, records.last())
            &&& match r {
                Ok(alpha) => samples.len() == states.len() && alpha == alphas(samples),
                Err(e) => samples.len() < states.len() && is_absorption(
                    pre.hydro.scheme,
                    pre.absorption,
                    states[samples.len() as int],
                    Err(e),
                ),
            }
        }
}

/// `profile[i]` is the intensity at the upstream face of cell `i`, the last one
/// what leaves the column.
pub open spec fn is_march<K: Beam1d>(
    k: K,
    incident: K::Real,
    alpha: Seq<K::Real>,
    profile: Seq<K::Real>,
) -> bool {
    &&& profile.len() == alpha.len() + 1
    &&& profile[0] == incident
    &&& forall|i: int|
        #![trigger alpha[i]]
        0 <= i < alpha.len() ==> call_ensures(
            K::attenuate,
            (&k, profile[i], alpha[i]),
            profile[i + 1],
        )
}

/// What asking a column for its intensity profile may do.
pub open spec fn is_intensity_profile<K: Beam1d>(
    pre: Column1d<K>,
    post: Column1d<K>,
    r: Result<Seq<K::Real>, LsdError<K::Real>>,
) -> bool {
    match r {
        Ok(profile) => is_profile(pre, post, profile),
        Err(e) => is_alpha_profile(pre, post, Err(e)),
    }
}

/// `profile` is the beam marched through the column's absorption.
pub open spec fn is_profile<K: Beam1d>(
    pre: Column1d<K>,
    post: Column1d<K>,
    profile: Seq<K::Real>,
) -> bool {
    exists|alpha: Seq<K::Real>| #[trigger]
        is_march(pre.hydro.scheme, pre.incident, alpha, profile) && is_alpha_profile(
            pre,
            post,
            Ok(alpha),
        )
}

/// `q[i]` is the power density absorbed between faces `i` and `i + 1`.
pub open spec fn is_absorbed<K: Beam1d>(k: K, profile: Seq<K::Real>, q: Seq<K::Real>) -> bool {
    &&& q.len() + 1 == profile.len()
    &&& forall|i: int|
        0 <= i < q.len() ==> call_ensures(
            K::absorbed,
            (&k, profile[i], profile[i + 1]),
            #[trigger] q[i],
        )
}

/// What asking a column for its deposition may do.
pub open spec fn is_deposition<K: Beam1d>(
    pre: Column1d<K>,
    post: Column1d<K>,
    r: Result<Seq<K::Real>, LsdError<K::Real>>,
) -> bool {
    match r {
        Ok(q) => is_deposited(pre, post, q),
        Err(e) => is_alpha_profile(pre, post, Err(e)),
    }
}

/// `q` is what the beam loses along the column.
pub open spec fn is_deposited<K: Beam1d>(
    pre: Column1d<K>,
    post: Column1d<K>,
    q: Seq<K::Real>,
) -> bool {
    exists|profile: Seq<K::Real>| #[trigger]
        is_absorbed(pre.hydro.scheme, profile, q) && is_profile(pre, post, profile)
}

/// A one-dimensional laser-supported detonation.
pub struct LsdColumn<K: Beam1d> {
    hydro: Euler1d<K>,
    absorption: Absorption<K::Real>,
    incident: K::Real,
    ambient: Primitive<K::Real>,
    deposited: K::Real,
    initial_energy: K::Real,
    hottest: Option<K::Real>,
    above_ceiling: bool,
}

impl<K: Beam1d> View for LsdColumn<K> {
    type V = Column1d<K>;

    closed spec fn view(&self) -> Column1d<K> {
        Column1d {
            hydro: self.hydro@,
            absorption: self.absorption,
            incident: self.incident,
            ambient: self.ambient,
            deposited: self.deposited,
            initial_energy: self.initial_energy,
            hottest: self.hottest,
            above_ceiling: self.above_ceiling,
        }
    }
}

impl<K: Beam1d> LsdColumn<K> {
    /// Absorption coefficient per cell.
    pub fn alpha_profile(&mut self) -> (r: Result<
        Vec<K::Real>,
        LsdError<K::Real>,
    >)
        ensures
            is_alpha_profile(old(self)@, final(self)@, viewed(r)),
            r matches Ok(alpha) ==> alpha@.len() == old(self)@.hydro.cells.len(),
    {
        let ghost pre = self@;
        let states: Vec<Primitive<K::Real>> = self.hydro.primitives();
        let mut alpha: Vec<K::Real> = Vec::with_capacity(states.len());
        let mut hottest: Option<K::Real> = self.hottest;
        let mut above: bool = self.above_ceiling;
        let ghost mut samples: Seq<(K::Real, Option<K::Real>)> = Seq::empty();
        let ghost mut records: Seq<Record<K::Real>> = seq![Record { hottest, above }];
        for i in 0..states.len()
            invariant
                pre == old(self)@,
                self@ == pre,
                samples.len() == i,
                is_alpha_run(pre, states@, samples, records),
                records.last() == (Record { hottest, above }),
                alpha@ == alphas(samples),
        {
            let k: &K = self.hydro.scheme();
            match self.absorption.sample(k, states[i]) {
                Ok((a, t)) => {
                    let ghost before = Record { hottest, above };
                    match t {
                        Some(t) => {
                            hottest = match hottest {
                                Some(h) => Some(k.larger(h, t)),
                                None => Some(t),
                            };
                            if !above {
                                let axes: K::Axes = k.axes();
                                above = PlasmaTable::is_singly_ionized_approximation(&axes, t);
                            }
                        },
                        None => {},
                    }
                    alpha.push(a);
                    proof {
                        let after = Record { hottest, above };
                        assert(is_recorded(pre.hydro.scheme, before, t, after));
                        let samples2 = samples.push((a, t));
                        let records2 = records.push(after);
                        assert forall|j: int|
                            #![trigger samples2[j]]
                            0 <= j < samples2.len() implies is_absorption(
                            pre.hydro.scheme,
                            pre.absorption,
                            states@[j],
                            Ok(samples2[j]),
                        ) && is_recorded(
                            pre.hydro.scheme,
                            records2[j],
                            samples2[j].1,
                            records2[j + 1],
                        ) by {
                            if j < i {
                                assert(samples2[j] == samples[j]);
                            }
                        }
                        samples = samples2;
                        records = records2;
                        assert(alpha@ =~= alphas(samples));
                    }
                },
                Err(e) => {
                    self.hottest = hottest;
                    self.above_ceiling = above;
                    return Err(e);
                },
            }
        }
        self.hottest = hottest;
        self.above_ceiling = above;
        Ok(alpha)
    }

    /// Intensity at each cell's upstream face, and what leaves the column.
    pub fn intensity_profile(&mut self) -> (r: Result<
        Vec<K::Real>,
        LsdError<K::Real>,
    >)
        requires
            old(self)@.hydro.valid(),
        ensures
            is_intensity_profile(old(self)@, final(self)@, viewed(r)),
            r matches Ok(p) ==> p@.len() == old(self)@.hydro.cells.len() + 1 && p@[0]
                == old(self)@.incident,
    {
        let alpha: Vec<K::Real> = match self.alpha_profile() {
            Ok(alpha) => alpha,
            Err(e) => {
                return Err(e);
            },
        };
        let ghost post = self@;
        proof {
            assert(is_alpha_profile(old(self)@, post, Ok(alpha@)));
            assert(post.hydro == old(self)@.hydro && post.incident == old(self)@.incident);
        }
        let k: &K = self.hydro.scheme();
        let mut i: K::Real = self.incident;
        let mut profile: Vec<K::Real> = Vec::with_capacity(alpha.len() + 1);
        profile.push(i);
        for j in 0..alpha.len()
            invariant
                *k == post.hydro.scheme,
                alpha@.len() < usize::MAX,
                is_march(*k, post.incident, alpha@.subrange(0, j as int), profile@),
                profile@.last() == i,
        {
            let next: K::Real = k.attenuate(i, alpha[j]);
            proof {
                let shorter = alpha@.subrange(0, j as int);
                let longer = alpha@.subrange(0, j + 1);
                let p2 = profile@.push(next);
                assert forall|m: int|
                    #![trigger longer[m]]
                    0 <= m < longer.len() implies call_ensures(
                    K::attenuate,
                    (k, p2[m], longer[m]),
                    p2[m + 1],
                ) by {
                    if m < j {
                        assert(longer[m] == shorter[m]);
                    }
                }
            }
            profile.push(next);
            i = next;
        }
        proof {
            assert(alpha@.subrange(0, alpha@.len() as int) =~= alpha@);
            assert(is_march(post.hydro.scheme, post.incident, alpha@, profile@));
            assert(is_profile(old(self)@, self@, profile@));
        }
        Ok(profile)
    }

    /// Absorbed power density per cell.
    pub fn deposition(&mut self) -> (r: Result<Vec<K::Real>, LsdError<K::Real>>)
        requires
            old(self)@.hydro.valid(),
        ensures
            is_deposition(old(self)@, final(self)@, viewed(r)),
            r matches Ok(q) ==> q@.len() == old(self)@.hydro.cells.len(),
    {
        let profile: Vec<K::Real> = match self.intensity_profile() {
            Ok(profile) => profile,
            Err(e) => {
                return Err(e);
            },
        };
        proof {
            assert(is_profile(old(self)@, self@, profile@));
            assert(self@.hydro == old(self)@.hydro);
        }
        let k: &K = self.hydro.scheme();
        let n: usize = profile.len() - 1;
        let mut q: Vec<K::Real> = Vec::with_capacity(n);
        for i in 0..n
            invariant
                n + 1 == profile@.len(),
                q@.len() == i,
                forall|m: int|
                    0 <= m < i ==> call_ensures(
                        K::absorbed,
                        (k, profile@[m], profile@[m + 1]),
                        #[trigger] q@[m],
                    ),
        {
            let d: K::Real = k.absorbed(profile[i], profile[i + 1]);
            q.push(d);
        }
        proof {
            assert(is_absorbed(old(self)@.hydro.scheme, profile@, q@));
        }
        Ok(q)
    }
}

/// `run[i]` is the sum of the first `i` values.
pub open spec fn is_sum_run<K: Beam1d>(k: K, values: Seq<K::Real>, run: Seq<K::Real>) -> bool {
    &&& run.len() == values.len() + 1
    &&& call_ensures(K::zero, (&k,), run[0])
    &&& forall|i: int|
        #![trigger values[i]]
        0 <= i < values.len() ==> call_ensures(K::plus, (&k, run[i], values[i]), run[i + 1])
}

/// `sum` is the sum of `values`, from the first.
pub open spec fn is_sum<K: Beam1d>(k: K, values: Seq<K::Real>, sum: K::Real) -> bool {
    exists|run: Seq<K::Real>| #[trigger] is_sum_run(k, values, run) && run.last() == sum
}

/// `run[i]` is the largest of `start` and the first `i` values.
pub open spec fn is_max_run<K: Beam1d>(
    k: K,
    start: K::Real,
    values: Seq<K::Real>,
    run: Seq<K::Real>,
) -> bool {
    &&& run.len() == values.len() + 1
    &&& run[0] == start
    &&& forall|i: int|
        #![trigger values[i]]
        0 <= i < values.len() ==> call_ensures(K::larger, (&k, run[i], values[i]), run[i + 1])
}

/// `top` is the largest of `start` and `values`.
pub open spec fn is_max<K: Beam1d>(
    k: K,
    start: K::Real,
    values: Seq<K::Real>,
    top: K::Real,
) -> bool {
    exists|run: Seq<K::Real>| #[trigger] is_max_run(k, start, values, run) && run.last() == top
}

/// Sum of values from the first.
pub fn sum_of<K: Beam1d>(k: &K, values: &[K::Real]) -> (sum: K::Real)
    ensures
        is_sum(*k, values@, sum),
{
    let mut sum: K::Real = k.zero();
    let ghost mut run: Seq<K::Real> = seq![sum];
    for i in 0..values.len()
        invariant
            run.last() == sum,
            is_sum_run(*k, values@.subrange(0, i as int), run),
    {
        let next: K::Real = k.plus(sum, values[i]);
        proof {
            let shorter = values@.subrange(0, i as int);
            let longer = values@.subrange(0, i + 1);
            let run2 = run.push(next);
            assert forall|j: int|
                #![trigger longer[j]]
                0 <= j < longer.len() implies call_ensures(
                K::plus,
                (k, run2[j], longer[j]),
                run2[j + 1],
            ) by {
                if j < i {
                    assert(longer[j] == shorter[j]);
                }
            }
            run = run2;
        }
        sum = next;
    }
    proof {
        assert(values@.subrange(0, values@.len() as int) =~= values@);
    }
    sum
}

/// Largest of `start` and some values.
pub fn max_of<K: Beam1d>(k: &K, start: K::Real, values: &[K::Real]) -> (top: K::Real)
    ensures
        is_max(*k, start, values@, top),
{
    let mut top: K::Real = start;
    let ghost mut run: Seq<K::Real> = seq![top];
    for i in 0..values.len()
        invariant
            run.last() == top,
            is_max_run(*k, start, values@.subrange(0, i as int), run),
    {
        let next: K::Real = k.larger(top, values[i]);
        proof {
            let shorter = values@.subrange(0, i as int);
            let longer = values@.subrange(0, i + 1);
            let run2 = run.push(next);
            assert forall|j: int|
                #![trigger longer[j]]
                0 <= j < longer.len() implies call_ensures(
                K::larger,
                (k, run2[j], longer[j]),
                run2[j + 1],
            ) by {
                if j < i {
                    assert(longer[j] == shorter[j]);
                }
            }
            run = run2;
        }
        top = next;
    }
    proof {
        assert(values@.subrange(0, values@.len() as int) =~= values@);
    }
    top
}

/// The rates listed cell by cell.
pub open spec fn listed<R>(q: Seq<R>) -> spec_fn(int, R, R) -> bool {
    |i: int, x: R, rate: R| rate == q[i]
}

/// What a deposition of `q` for `dt` may do once `q` is known.
pub open spec fn is_banking<K: Beam1d>(
    mid: Column1d<K>,
    dt: K::Real,
    q: Seq<K::Real>,
    post: Column1d<K>,
    r: Result<(), LsdError<K::Real>>,
) -> bool {
    match r {
        Ok(_) => {
            &&& is_heating_outcome(mid.hydro, dt, listed(q), post.hydro, Ok(()))
            &&& is_banked(mid, dt, q, post.deposited)
            &&& post == (Column1d { hydro: post.hydro, deposited: post.deposited, ..mid })
        },
        Err(LsdError::Hydro(e)) => {
            &&& is_heating_outcome(mid.hydro, dt, listed(q), mid.hydro, Err(e))
            &&& post == mid
        },
        Err(_) => false,
    }
}

pub open spec fn is_banked<K: Beam1d>(
    mid: Column1d<K>,
    dt: K::Real,
    q: Seq<K::Real>,
    deposited: K::Real,
) -> bool {
    exists|sum: K::Real| #[trigger]
        is_sum(mid.hydro.scheme, q, sum) && call_ensures(
            K::bank,
            (&mid.hydro.scheme, mid.deposited, dt, sum),
            deposited,
        )
}

/// What a source half-step of length `dt` may do.
pub open spec fn is_deposit<K: Beam1d>(
    pre: Column1d<K>,
    dt: K::Real,
    post: Column1d<K>,
    r: Result<(), LsdError<K::Real>>,
) -> bool {
    ||| r matches Err(e) && is_alpha_profile(pre, post, Err(e))
    ||| exists|mid: Column1d<K>, q: Seq<K::Real>| #[trigger]
        is_deposited(pre, mid, q) && #[trigger] is_banking(mid, dt, q, post, r)
}

/// The stages of a coupled step, in order: half a deposition to `a`, the hydro
/// step to `b`, half a deposition. The first that refuses ends the step.
pub open spec fn is_advance_staged<K: Beam1d>(
    pre: Column1d<K>,
    dt: K::Real,
    half: K::Real,
    a: Column1d<K>,
    b: Column1d<K>,
    post: Column1d<K>,
    r: Result<(), LsdError<K::Real>>,
) -> bool {
    let first = is_deposit(pre, half, a, Ok(()));
    let second = first && is_unforced_outcome(a.hydro, dt, b.hydro, Ok(())) && b == (Column1d {
        hydro: b.hydro,
        ..a
    });
    &&& call_ensures(K::half, (&pre.hydro.scheme, dt), half)
    &&& match r {
        Ok(_) => second && is_deposit(b, half, post, Ok(())),
        Err(e) => {
            ||| is_deposit(pre, half, post, Err(e))
            ||| first && (e matches LsdError::Hydro(h) && is_unforced_outcome(
                a.hydro,
                dt,
                a.hydro,
                Err(h),
            )) && post == a
            ||| second && is_deposit(b, half, post, Err(e))
        },
    }
}

/// What a coupled step may do.
pub open spec fn is_advance<K: Beam1d>(
    pre: Column1d<K>,
    dt: K::Real,
    post: Column1d<K>,
    r: Result<(), LsdError<K::Real>>,
) -> bool {
    exists|half: K::Real, a: Column1d<K>, b: Column1d<K>| #[trigger]
        is_advance_staged(pre, dt, half, a, b, post, r)
}

/// `next` is the step that the predicted speeds of `dt` allow.
pub open spec fn is_next_step<K: Beam1d>(
    k: K,
    cfl: K::Real,
    states: Seq<Primitive<K::Real>>,
    q: Seq<K::Real>,
    dt: K::Real,
    next: K::Real,
) -> bool {
    exists|speeds: Seq<K::Real>, top: K::Real|
        {
            &&& #[trigger] are_predicted(k, states, q, dt, speeds)
            &&& #[trigger] is_max_from_zero(k, speeds, top)
            &&& call_ensures(K::courant_step, (&k, cfl, top), next)
        }
}

pub open spec fn is_max_from_zero<K: Beam1d>(k: K, values: Seq<K::Real>, top: K::Real) -> bool {
    exists|zero: K::Real| #[trigger]
        call_ensures(K::zero, (&k,), zero) && is_max(k, zero, values, top)
}

pub open spec fn are_predicted<K: Beam1d>(
    k: K,
    states: Seq<Primitive<K::Real>>,
    q: Seq<K::Real>,
    dt: K::Real,
    speeds: Seq<K::Real>,
) -> bool {
    &&& speeds.len() == states.len()
    &&& forall|i: int|
        0 <= i < speeds.len() ==> call_ensures(
            K::predicted_speed,
            (&k, states[i], q[i], dt),
            #[trigger] speeds[i],
        )
}

/// Most passes that the coupled step is settled in.
pub const MAX_STEP_PASSES: usize = 8;

/// `trace` is the iteration on the coupled step: it ends with the pass that
/// settles, or after [`MAX_STEP_PASSES`].
pub open spec fn is_step_iteration<K: Beam1d>(
    k: K,
    cfl: K::Real,
    states: Seq<Primitive<K::Real>>,
    q: Seq<K::Real>,
    trace: Seq<K::Real>,
) -> bool {
    let passes = trace.len() - 1;
    &&& 0 <= passes <= MAX_STEP_PASSES
    &&& forall|i: int| 0 <= i < passes ==> #[trigger] is_pass(k, cfl, states, q, trace, i)
    &&& forall|i: int| 0 <= i < passes - 1 ==> #[trigger] is_settled_at(k, trace, i, false)
}

/// Pass `i` of the iteration takes `trace[i]` to `trace[i + 1]`.
pub open spec fn is_pass<K: Beam1d>(
    k: K,
    cfl: K::Real,
    states: Seq<Primitive<K::Real>>,
    q: Seq<K::Real>,
    trace: Seq<K::Real>,
    i: int,
) -> bool {
    is_next_step(k, cfl, states, q, trace[i], trace[i + 1])
}

/// Whether pass `i` was found to have settled.
pub open spec fn is_settled_at<K: Beam1d>(
    k: K,
    trace: Seq<K::Real>,
    i: int,
    settled: bool,
) -> bool {
    call_ensures(K::is_settled, (&k, trace[i + 1], trace[i]), settled)
}

pub open spec fn is_iteration_over<K: Beam1d>(k: K, trace: Seq<K::Real>) -> bool {
    let passes = trace.len() - 1;
    ||| passes == MAX_STEP_PASSES
    ||| passes > 0 && is_settled_at(k, trace, passes - 1, true)
}

/// What asking for the coupled step may return, once the deposition is known.
pub open spec fn is_coupled_step<K: Beam1d>(
    mid: Column1d<K>,
    q: Seq<K::Real>,
    states: Seq<Primitive<K::Real>>,
    trace: Seq<K::Real>,
    r: Result<K::Real, LsdError<K::Real>>,
) -> bool {
    let k = mid.hydro.scheme;
    &&& states.len() == mid.hydro.cells.len()
    &&& forall|i: int|
        0 <= i < states.len() ==> call_ensures(
            K::to_primitive,
            (&k, mid.hydro.cells[i]),
            #[trigger] states[i],
        )
    &&& is_stable_dt(mid.hydro, Ok(trace[0]))
    &&& is_step_iteration(k, mid.hydro.cfl, states, q, trace)
    &&& is_iteration_over(k, trace)
    &&& match r {
        Ok(dt) => {
            &&& call_ensures(K::is_positive, (&k, trace.last()), true)
            &&& call_ensures(K::shave, (&k, trace.last()), dt)
        },
        Err(e) => {
            &&& call_ensures(K::is_positive, (&k, trace.last()), false)
            &&& e is NoStableStep
        },
    }
}

/// What [`LsdColumn::stable_dt`] may do.
pub open spec fn is_coupled_dt<K: Beam1d>(
    pre: Column1d<K>,
    post: Column1d<K>,
    r: Result<K::Real, LsdError<K::Real>>,
) -> bool {
    ||| r matches Err(e) && is_alpha_profile(pre, post, Err(e))
    ||| exists|q: Seq<K::Real>|
        {
            &&& #[trigger] is_deposited(pre, post, q)
            &&& {
                ||| r matches Err(LsdError::Hydro(e)) && is_stable_dt(post.hydro, Err(e))
                ||| exists|states: Seq<Primitive<K::Real>>, trace: Seq<K::Real>| #[trigger]
                    is_coupled_step(post, q, states, trace, r)
            }
        }
}

impl<K: Beam1d> LsdColumn<K> {
    pub open spec fn wf(&self) -> bool {
        self@.hydro.valid()
    }

    /// The gas dynamics, read-only.
    pub fn hydro(&self) -> (h: &Euler1d<K>)
        ensures
            h@ == self@.hydro,
    {
        &self.hydro
    }

    /// Intensity entering the column.
    pub fn incident_intensity(&self) -> (i: K::Real)
        ensures
            i == self@.incident,
    {
        self.incident
    }

    /// Set the intensity entering the column.
    pub fn set_incident_intensity(&mut self, incident: K::Real) -> (r: Result<
        (),
        LsdError<K::Real>,
    >)
        ensures
            match r {
                Ok(_) => {
                    &&& call_ensures(K::is_positive, (&old(self)@.hydro.scheme, incident), true)
                    &&& final(self)@ == (Column1d { incident, ..old(self)@ })
                },
                Err(e) => {
                    &&& call_ensures(K::is_positive, (&old(self)@.hydro.scheme, incident), false)
                    &&& e is BadIncident
                    &&& final(self)@ == old(self)@
                },
            },
    {
        if !self.hydro.scheme().is_positive(incident) {
            return Err(LsdError::BadIncident);
        }
        self.incident = incident;
        Ok(())
    }

    /// Energy deposited so far.
    pub fn deposited_energy(&self) -> (e: K::Real)
        ensures
            e == self@.deposited,
    {
        self.deposited
    }

    /// Hottest temperature that the absorption model reported, if it has any.
    pub fn hottest_temperature(&self) -> (t: Option<K::Real>)
        ensures
            t == self@.hottest,
    {
        self.hottest
    }

    /// Whether the property table was asked above its singly-ionized range.
    pub fn used_singly_ionized_approximation(&self) -> (b: bool)
        ensures
            b == self@.above_ceiling,
    {
        self.above_ceiling
    }

    /// Relative gap of the energy budget.
    pub fn energy_residual(&self) -> (gap: K::Real)
        ensures
            exists|energy: K::Real|
                {
                    &&& #[trigger] is_integral(
                        self@.hydro,
                        energies(),
                        energy,
                    )
                    &&& call_ensures(
                        K::budget_gap,
                        (
                            &self@.hydro.scheme,
                            energy,
                            self@.initial_energy,
                            self@.deposited,
                        ),
                        gap,
                    )
                },
    {
        let energy: K::Real = self.hydro.total_energy();
        proof {
            assert(is_integral(self@.hydro, energies(), energy));
        }
        self.hydro.scheme().budget_gap(energy, self.initial_energy, self.deposited)
    }

    /// One source half-step: deposit for `dt` and bank the energy.
    fn deposit(&mut self, dt: K::Real) -> (r: Result<(), LsdError<K::Real>>)
        requires
            old(self).wf(),
        ensures
            final(self).wf(),
            is_deposit(old(self)@, dt, final(self)@, r),
            final(self)@.hydro.steps == old(self)@.hydro.steps,
    {
        let q: Vec<K::Real> = match self.deposition() {
            Ok(q) => q,
            Err(e) => {
                return Err(e);
            },
        };
        let ghost mid = self@;
        proof {
            assert(is_deposited(old(self)@, mid, q@));
            assert(mid.hydro == old(self)@.hydro);
        }
        let qr: &Vec<K::Real> = &q;
        let rate = |i: usize, _x: K::Real| -> (v: K::Real)
            requires
                i < qr@.len(),
            ensures
                v == qr@[i as int],
            { qr[i] };
        let heated: Result<(), EulerError> = self.hydro.add_energy(dt, rate);
        proof {
            lemma_heating_widens(
                mid.hydro,
                dt,
                rates_of(rate),
                listed(q@),
                self.hydro@,
                heated,
            );
        }
        match heated {
            Ok(_) => {},
            Err(e) => {
                proof {
                    assert(is_banking(mid, dt, q@, self@, Err(LsdError::Hydro(e))));
                }
                return Err(LsdError::Hydro(e));
            },
        }
        let k: &K = self.hydro.scheme();
        let sum: K::Real = sum_of(k, q.as_slice());
        self.deposited = k.bank(self.deposited, dt, sum);
        proof {
            assert(is_banked(mid, dt, q@, self@.deposited));
            assert(is_banking(mid, dt, q@, self@, Ok(())));
        }
        Ok(())
    }

    /// One coupled step of `dt`: half a deposition, a hydro step, half a
    /// deposition of what the beam then loses.
    pub fn advance(&mut self, dt: K::Real) -> (r: Result<(), LsdError<K::Real>>)
        requires
            old(self).wf(),
            old(self)@.hydro.steps < usize::MAX,
        ensures
            final(self).wf(),
            is_advance(old(self)@, dt, final(self)@, r),
            r is Ok ==> final(self)@.hydro.steps == old(self)@.hydro.steps + 1,
    {
        let ghost pre = self@;
        let half: K::Real = self.hydro.scheme().half(dt);
        let first: Result<(), LsdError<K::Real>> = self.deposit(half);
        match first {
            Ok(_) => {},
            Err(e) => {
                proof {
                    assert(is_advance_staged(pre, dt, half, pre, pre, self@, Err(e)));
                }
                return Err(e);
            },
        }
        let ghost a = self@;
        proof {
            let unit: () = first->Ok_0;
            assert(unit == ());
            assert(is_deposit(pre, half, a, Ok(())));
        }
        let stepped: Result<(), EulerError> = self.hydro.step(dt);
        match stepped {
            Ok(_) => {},
            Err(e) => {
                proof {
                    assert(self@.hydro == a.hydro);
                    assert(is_advance_staged(
                        pre,
                        dt,
                        half,
                        a,
                        a,
                        self@,
                        Err(LsdError::Hydro(e)),
                    ));
                }
                return Err(LsdError::Hydro(e));
            },
        }
        let ghost b = self@;
        proof {
            let unit: () = stepped->Ok_0;
            assert(unit == ());
            assert(is_unforced_outcome(a.hydro, dt, b.hydro, Ok(())));
            assert(b == (Column1d { hydro: b.hydro, ..a }));
        }
        let last: Result<(), LsdError<K::Real>> = self.deposit(half);
        match last {
            Ok(unit) => {
                proof {
                    assert(unit == ());
                    assert(is_advance_staged(pre, dt, half, a, b, self@, Ok(())));
                }
                Ok(())
            },
            Err(e) => {
                proof {
                    assert(is_advance_staged(pre, dt, half, a, b, self@, Err(e)));
                }
                Err(e)
            },
        }
    }

    /// Largest signal speed once the deposition has acted for half of `dt`, as
    /// a step.
    fn next_step(&self, states: &[Primitive<K::Real>], q: &[K::Real], dt: K::Real) -> (next: K::Real)
        requires
            q@.len() == states@.len(),
        ensures
            is_next_step(self@.hydro.scheme, self@.hydro.cfl, states@, q@, dt, next),
    {
        let k: &K = self.hydro.scheme();
        let mut speeds: Vec<K::Real> = Vec::with_capacity(states.len());
        for i in 0..states.len()
            invariant
                q@.len() == states@.len(),
                speeds@.len() == i,
                forall|j: int|
                    0 <= j < i ==> call_ensures(
                        K::predicted_speed,
                        (k, states@[j], q@[j], dt),
                        #[trigger] speeds@[j],
                    ),
        {
            let s: K::Real = k.predicted_speed(states[i], q[i], dt);
            speeds.push(s);
        }
        let zero: K::Real = k.zero();
        let top: K::Real = max_of(k, zero, speeds.as_slice());
        proof {
            assert(are_predicted(*k, states@, q@, dt, speeds@));
            assert(is_max_from_zero(*k, speeds@, top));
        }
        k.courant_step(self.hydro.cfl(), top)
    }

    /// Stable step of the coupled system. The leading half-deposition raises
    /// the signal speeds before the flux update runs, so the step that they
    /// allow is found by iteration, [`MAX_STEP_PASSES`] passes at most.
    pub fn stable_dt(&mut self) -> (r: Result<K::Real, LsdError<K::Real>>)
        requires
            old(self).wf(),
        ensures
            final(self).wf(),
            is_coupled_dt(old(self)@, final(self)@, r),
            final(self)@.hydro == old(self)@.hydro,
    {
        let q: Vec<K::Real> = match self.deposition() {
            Ok(q) => q,
            Err(e) => {
                return Err(e);
            },
        };
        proof {
            assert(is_deposited(old(self)@, self@, q@));
            assert(self@.hydro == old(self)@.hydro);
        }
        let states: Vec<Primitive<K::Real>> = self.hydro.primitives();
        let mut dt: K::Real = match self.hydro.stable_dt() {
            Ok(dt) => dt,
            Err(e) => {
                return Err(LsdError::Hydro(e));
            },
        };
        let k: &K = self.hydro.scheme();
        let ghost cfl = self@.hydro.cfl;
        let ghost mut trace: Seq<K::Real> = seq![dt];
        let mut settled: bool = false;
        let mut pass: usize = 0;
        while pass < MAX_STEP_PASSES && !settled
            invariant
                self@.hydro == old(self)@.hydro,
                *k == self@.hydro.scheme,
                cfl == self@.hydro.cfl,
                q@.len() == states@.len(),
                pass <= MAX_STEP_PASSES,
                trace.len() == pass + 1,
                trace.last() == dt,
                is_stable_dt(self@.hydro, Ok(trace[0])),
                is_step_iteration(*k, cfl, states@, q@, trace),
                pass > 0 ==> is_settled_at(*k, trace, pass - 1, settled),
                pass == 0 ==> !settled,
            decreases MAX_STEP_PASSES - pass,
        {
            let next: K::Real = self.next_step(states.as_slice(), q.as_slice(), dt);
            settled = k.is_settled(next, dt);
            proof {
                let t2 = trace.push(next);
                assert forall|i: int| 0 <= i < t2.len() - 1 implies #[trigger] is_pass(
                    *k,
                    cfl,
                    states@,
                    q@,
                    t2,
                    i,
                ) by {
                    if i < trace.len() - 1 {
                        assert(is_pass(*k, cfl, states@, q@, trace, i));
                    }
                }
                assert forall|i: int| 0 <= i < t2.len() - 2 implies #[trigger] is_settled_at(
                    *k,
                    t2,
                    i,
                    false,
                ) by {
                    assert(is_settled_at(*k, trace, i, false));
                }
                trace = t2;
            }
            dt = next;
            pass = pass + 1;
        }
        proof {
            assert(is_iteration_over(*k, trace));
        }
        if !k.is_positive(dt) {
            proof {
                assert(is_coupled_step(self@, q@, states@, trace, Err(LsdError::NoStableStep)));
            }
            return Err(LsdError::NoStableStep);
        }
        let shaved: K::Real = k.shave(dt);
        proof {
            assert(is_coupled_step(self@, q@, states@, trace, Ok(shaved)));
        }
        Ok(shaved)
    }
}

/// `states` are the primitive states of the column's cells.
pub open spec fn are_states<K: Beam1d>(c: Column1d<K>, states: Seq<Primitive<K::Real>>) -> bool {
    &&& states.len() == c.hydro.cells.len()
    &&& forall|i: int|
        0 <= i < states.len() ==> call_ensures(
            K::to_primitive,
            (&c.hydro.scheme, c.hydro.cells[i]),
            #[trigger] states[i],
        )
}

/// `p[i]` is the pressure of state `i`.
pub open spec fn are_pressures<K: Beam1d>(
    k: K,
    states: Seq<Primitive<K::Real>>,
    p: Seq<K::Real>,
) -> bool {
    &&& p.len() == states.len()
    &&& forall|i: int|
        0 <= i < p.len() ==> #[trigger] p[i] == states[i].p
}

/// `p_max` is the largest of some pressures.
pub open spec fn is_peak<K: Beam1d>(k: K, p: Seq<K::Real>, p_max: K::Real) -> bool {
    exists|lowest: K::Real| #[trigger]
        call_ensures(K::lowest, (&k,), lowest) && is_max(k, lowest, p, p_max)
}

/// Entry `i` is the first that reaches `level`.
pub open spec fn is_first_reaching<K: Beam1d>(
    k: K,
    p: Seq<K::Real>,
    level: K::Real,
    i: int,
) -> bool {
    &&& 0 <= i < p.len()
    &&& call_ensures(K::reaches, (&k, p[i], level), true)
    &&& none_reaching(k, p.subrange(0, i), level)
}

/// No entry reaches `level`.
pub open spec fn none_reaching<K: Beam1d>(k: K, p: Seq<K::Real>, level: K::Real) -> bool {
    forall|j: int| 0 <= j < p.len() ==> call_ensures(K::reaches, (&k, #[trigger] p[j], level), false)
}

/// First entry that reaches `level`.
fn first_reaching<K: Beam1d>(k: &K, p: &[K::Real], level: K::Real) -> (r: Option<usize>)
    ensures
        match r {
            Some(i) => is_first_reaching(*k, p@, level, i as int),
            None => none_reaching(*k, p@, level),
        },
{
    for i in 0..p.len()
        invariant
            none_reaching(*k, p@.subrange(0, i as int), level),
    {
        if k.reaches(p[i], level) {
            return Some(i);
        }
        proof {
            let longer = p@.subrange(0, i + 1);
            assert forall|j: int| 0 <= j < longer.len() implies call_ensures(
                K::reaches,
                (k, #[trigger] longer[j], level),
                false,
            ) by {
                if j < i {
                    assert(longer[j] == p@.subrange(0, i as int)[j]);
                }
            }
        }
    }
    proof {
        assert(p@.subrange(0, p@.len() as int) =~= p@);
    }
    None
}

/// Where a front in a line of states may be found, with their pressures, the
/// peak and the level.
pub open spec fn is_front_found<K: Beam1d>(
    k: K,
    ambient: Primitive<K::Real>,
    states: Seq<Primitive<K::Real>>,
    p: Seq<K::Real>,
    p_max: K::Real,
    level: K::Real,
    r: Option<K::Real>,
) -> bool {
    &&& are_pressures(k, states, p)
    &&& is_peak(k, p, p_max)
    &&& {
        ||| call_ensures(K::is_front, (&k, p_max, ambient), false) && r is None
        ||| {
            &&& call_ensures(K::is_front, (&k, p_max, ambient), true)
            &&& call_ensures(K::half_rise, (&k, p_max, ambient), level)
            &&& {
                ||| none_reaching(k, p, level) && r is None
                ||| exists|i: int|
                    #[trigger] is_first_reaching(k, p, level, i) && (r matches Some(x)
                        && is_front_at(k, states, level, i, x))
            }
        }
    }
}

/// Where a front in a line of states may be found.
pub open spec fn is_front_in<K: Beam1d>(
    k: K,
    ambient: Primitive<K::Real>,
    states: Seq<Primitive<K::Real>>,
    r: Option<K::Real>,
) -> bool {
    exists|p: Seq<K::Real>, p_max: K::Real, level: K::Real| #[trigger]
        is_front_found(k, ambient, states, p, p_max, level, r)
}

/// Pressure of each state.
fn pressures<K: Beam1d>(k: &K, states: &[Primitive<K::Real>]) -> (p: Vec<K::Real>)
    ensures
        are_pressures(*k, states@, p@),
{
    let mut p: Vec<K::Real> = Vec::with_capacity(states.len());
    for i in 0..states.len()
        invariant
            p@.len() == i,
            forall|j: int|
                0 <= j < i ==> #[trigger] p@[j] == states@[j].p,
    {
        let v: K::Real = states[i].p;
        p.push(v);
    }
    p
}

/// Position of the front in a line of states: the laser-side edge of the
/// pressure rise, at half the rise. `None` where there is none.
pub fn find_front<K: Beam1d>(k: &K, ambient: Primitive<K::Real>, states: &[Primitive<K::Real>]) -> (r: Option<
    K::Real,
>)
    ensures
        is_front_in(*k, ambient, states@, r),
{
    let p: Vec<K::Real> = pressures(k, states);
    let lowest: K::Real = k.lowest();
    let p_max: K::Real = max_of(k, lowest, p.as_slice());
    proof {
        assert(is_peak(*k, p@, p_max));
    }
    if !k.is_front(p_max, ambient) {
        proof {
            assert(is_front_found(*k, ambient, states@, p@, p_max, p_max, None));
        }
        return None;
    }
    let level: K::Real = k.half_rise(p_max, ambient);
    match first_reaching(k, p.as_slice(), level) {
        None => {
            proof {
                assert(is_front_found(*k, ambient, states@, p@, p_max, level, None));
            }
            None
        },
        Some(i) => {
            let x: K::Real = if i == 0 {
                k.x_centre(0)
            } else {
                k.crossing(level, states[i - 1], states[i], i)
            };
            proof {
                assert(is_first_reaching(*k, p@, level, i as int));
                assert(is_front_at(*k, states@, level, i as int, x));
                assert(is_front_found(*k, ambient, states@, p@, p_max, level, Some(x)));
            }
            Some(x)
        },
    }
}

/// `x` is where the front is, the pressure first reaching `level` in cell `i`:
/// between that cell and the one before, or at the first cell's centre.
pub open spec fn is_front_at<K: Beam1d>(
    k: K,
    states: Seq<Primitive<K::Real>>,
    level: K::Real,
    i: int,
    x: K::Real,
) -> bool {
    if i == 0 {
        call_ensures(K::x_centre, (&k, 0usize), x)
    } else {
        call_ensures(K::crossing, (&k, level, states[i - 1], states[i], i as usize), x)
    }
}

/// What [`LsdColumn::front_position`] may return.
pub open spec fn is_front_position<K: Beam1d>(c: Column1d<K>, r: Option<K::Real>) -> bool {
    exists|states: Seq<Primitive<K::Real>>| #[trigger]
        are_states(c, states) && is_front_in(c.hydro.scheme, c.ambient, states, r)
}

/// One step of a march towards `t_end`.
pub open spec fn is_marched<K: Beam1d>(
    pre: Column1d<K>,
    t_end: K::Real,
    post: Column1d<K>,
) -> bool {
    &&& call_ensures(K::is_before, (&pre.hydro.scheme, pre.hydro.time, t_end), true)
    &&& exists|sized: Column1d<K>, dt: K::Real| #[trigger]
        is_sized(pre, t_end, sized, dt) && is_advance(sized, dt, post, Ok(()))
}

/// `dt` is the coupled step, clipped at `t_end`, and `sized` the column after it
/// was asked for.
pub open spec fn is_sized<K: Beam1d>(
    pre: Column1d<K>,
    t_end: K::Real,
    sized: Column1d<K>,
    dt: K::Real,
) -> bool {
    exists|limit: K::Real|
        is_coupled_dt(pre, sized, Ok(limit)) && #[trigger] call_ensures(
            K::clip,
            (&pre.hydro.scheme, limit, pre.hydro.time, t_end),
            dt,
        )
}

/// The columns that a march from `pre` towards `t_end` passes through.
pub open spec fn is_march_to<K: Beam1d>(
    pre: Column1d<K>,
    t_end: K::Real,
    trace: Seq<Column1d<K>>,
) -> bool {
    &&& trace.len() > 0
    &&& trace[0] == pre
    &&& forall|i: int| 0 <= i < trace.len() - 1 ==> #[trigger] is_marched_at(trace, t_end, i)
}

pub open spec fn is_marched_at<K: Beam1d>(
    trace: Seq<Column1d<K>>,
    t_end: K::Real,
    i: int,
) -> bool {
    is_marched(trace[i], t_end, trace[i + 1])
}

/// Why a march whose last completed step gave `last` ends, leaving `post`.
pub open spec fn is_march_over<K: Beam1d>(
    last: Column1d<K>,
    t_end: K::Real,
    post: Column1d<K>,
    r: Result<(), LsdError<K::Real>>,
) -> bool {
    let k = last.hydro.scheme;
    match r {
        Ok(_) => {
            &&& post == last
            &&& call_ensures(K::is_before, (&k, last.hydro.time, t_end), false)
        },
        Err(e) => {
            &&& call_ensures(K::is_before, (&k, last.hydro.time, t_end), true)
            &&& {
                ||| post == last && e is StepsExhausted && last.hydro.steps == usize::MAX
                ||| is_coupled_dt(last, post, Err(e))
                ||| is_march_refused(last, t_end, post, e)
            }
        },
    }
}

pub open spec fn is_march_refused<K: Beam1d>(
    last: Column1d<K>,
    t_end: K::Real,
    post: Column1d<K>,
    e: LsdError<K::Real>,
) -> bool {
    exists|sized: Column1d<K>, dt: K::Real| #[trigger]
        is_sized(last, t_end, sized, dt) && is_advance(sized, dt, post, Err(e))
}

/// What a march to `t_end` may do.
pub open spec fn is_advance_to<K: Beam1d>(
    pre: Column1d<K>,
    t_end: K::Real,
    post: Column1d<K>,
    r: Result<(), LsdError<K::Real>>,
) -> bool {
    exists|trace: Seq<Column1d<K>>| #[trigger]
        is_march_to(pre, t_end, trace) && is_march_over(trace.last(), t_end, post, r)
}

/// What building a seeded column may return.
pub open spec fn is_seeded<K: Beam1d>(
    scheme: K,
    n_cells: usize,
    ambient: Primitive<K::Real>,
    ignition: SeededIgnition<K::Real>,
    absorption: Absorption<K::Real>,
    incident: K::Real,
    states: Seq<Primitive<K::Real>>,
    built: Result<Euler1d<K>, EulerError>,
    r: Result<LsdColumn<K>, LsdError<K::Real>>,
) -> bool {
    let lit = call_ensures(K::is_positive, (&scheme, incident), true);
    let long = lit && call_ensures(K::length_is_valid, (&scheme,), true);
    let hot = long && call_ensures(K::is_hot_spot, (&scheme, ignition, ambient), true);
    let filled = hot && is_build(scheme, Boundary::Transmissive, states, built) && states.len()
        == n_cells && forall|i: int|
        0 <= i < n_cells ==> is_seeded_state(scheme, ignition, ambient, i, #[trigger] states[i]);
    match r {
        Ok(c) => {
            &&& filled
            &&& c.wf()
            &&& built matches Ok(h) && c@.hydro == h@
            &&& c@.absorption == absorption
            &&& c@.incident == incident
            &&& c@.ambient == ambient
            &&& call_ensures(K::zero, (&scheme,), c@.deposited)
            &&& is_integral(c@.hydro, energies(), c@.initial_energy)
            &&& c@.hottest is None
            &&& !c@.above_ceiling
        },
        Err(LsdError::BadIncident) => call_ensures(K::is_positive, (&scheme, incident), false),
        Err(LsdError::BadLength) => lit && call_ensures(K::length_is_valid, (&scheme,), false),
        Err(LsdError::BadSeed) => {
            long && call_ensures(K::is_hot_spot, (&scheme, ignition, ambient), false)
        },
        Err(LsdError::Hydro(e)) => filled && (built matches Err(f) && f == e),
        Err(_) => false,
    }
}

/// `w` is the initial state of cell `i`: at the seed's pressure inside the seed,
/// ambient elsewhere.
pub open spec fn is_seeded_state<K: Beam1d>(
    scheme: K,
    ignition: SeededIgnition<K::Real>,
    ambient: Primitive<K::Real>,
    i: int,
    w: Primitive<K::Real>,
) -> bool {
    exists|x: K::Real|
        {
            &&& #[trigger] call_ensures(K::x_centre, (&scheme, i as usize), x)
            &&& {
                ||| call_ensures(K::is_in_seed, (&scheme, ignition, x), true) && w == (Primitive {
                    p: ignition.pressure,
                    ..ambient
                })
                ||| call_ensures(K::is_in_seed, (&scheme, ignition, x), false) && w == ambient
            }
        }
}

impl<K: Beam1d> LsdColumn<K> {
    /// A column of `n_cells` filled with ambient gas and a seeded hot spot,
    /// driven by an intensity that enters at the first cell.
    pub fn seeded(
        scheme: K,
        n_cells: usize,
        ambient: Primitive<K::Real>,
        ignition: SeededIgnition<K::Real>,
        absorption: Absorption<K::Real>,
        incident: K::Real,
    ) -> (r: Result<Self, LsdError<K::Real>>)
        requires
            n_cells + 2 * N_GHOST <= isize::MAX,
        ensures
            exists|states: Seq<Primitive<K::Real>>, built: Result<Euler1d<K>, EulerError>| #[trigger]
                is_seeded(
                    scheme,
                    n_cells,
                    ambient,
                    ignition,
                    absorption,
                    incident,
                    states,
                    built,
                    r,
                ),
    {
        let ghost unbuilt: Result<Euler1d<K>, EulerError> = Err(EulerError::BadSpacing);
        let ghost empty: Seq<Primitive<K::Real>> = Seq::empty();
        if !scheme.is_positive(incident) {
            proof {
                assert(is_seeded(
                    scheme,
                    n_cells,
                    ambient,
                    ignition,
                    absorption,
                    incident,
                    empty,
                    unbuilt,
                    Err(LsdError::BadIncident),
                ));
            }
            return Err(LsdError::BadIncident);
        }
        if !scheme.length_is_valid() {
            proof {
                assert(is_seeded(
                    scheme,
                    n_cells,
                    ambient,
                    ignition,
                    absorption,
                    incident,
                    empty,
                    unbuilt,
                    Err(LsdError::BadLength),
                ));
            }
            return Err(LsdError::BadLength);
        }
        if !scheme.is_hot_spot(ignition, ambient) {
            proof {
                assert(is_seeded(
                    scheme,
                    n_cells,
                    ambient,
                    ignition,
                    absorption,
                    incident,
                    empty,
                    unbuilt,
                    Err(LsdError::BadSeed),
                ));
            }
            return Err(LsdError::BadSeed);
        }
        let ghost k = scheme;
        let mut states: Vec<Primitive<K::Real>> = Vec::with_capacity(n_cells);
        for i in 0..n_cells
            invariant
                k == scheme,
                states@.len() == i,
                forall|j: int|
                    0 <= j < i ==> is_seeded_state(k, ignition, ambient, j, #[trigger] states@[j]),
        {
            let x: K::Real = scheme.x_centre(i);
            let w: Primitive<K::Real> = if scheme.is_in_seed(ignition, x) {
                Primitive { rho: ambient.rho, u: ambient.u, p: ignition.pressure }
            } else {
                ambient
            };
            proof {
                assert(is_seeded_state(k, ignition, ambient, i as int, w));
            }
            states.push(w);
        }
        let deposited: K::Real = scheme.zero();
        let built: Result<Euler1d<K>, EulerError> = Euler1d::new(
            scheme,
            Boundary::Transmissive,
            states.as_slice(),
        );
        let ghost kept = built;
        match built {
            Ok(hydro) => {
                let initial_energy: K::Real = hydro.total_energy();
                let c: Self = LsdColumn {
                    hydro,
                    absorption,
                    incident,
                    ambient,
                    deposited,
                    initial_energy,
                    hottest: None,
                    above_ceiling: false,
                };
                proof {
                    assert(is_seeded(
                        k,
                        n_cells,
                        ambient,
                        ignition,
                        absorption,
                        incident,
                        states@,
                        kept,
                        Ok(c),
                    ));
                }
                Ok(c)
            },
            Err(e) => {
                proof {
                    assert(is_seeded(
                        k,
                        n_cells,
                        ambient,
                        ignition,
                        absorption,
                        incident,
                        states@,
                        kept,
                        Err(LsdError::Hydro(e)),
                    ));
                }
                Err(LsdError::Hydro(e))
            },
        }
    }

    /// March to `t_end`, each coupled step sized from the current state and the
    /// last one clipped.
    pub fn advance_to(&mut self, t_end: K::Real) -> (r: Result<
        (),
        LsdError<K::Real>,
    >)
        requires
            old(self).wf(),
        ensures
            final(self).wf(),
            is_advance_to(old(self)@, t_end, final(self)@, r),
    {
        let ghost mut trace: Seq<Column1d<K>> = seq![self@];
        loop
            invariant
                self.wf(),
                is_march_to(old(self)@, t_end, trace),
                trace.last() == self@,
            decreases usize::MAX - self@.hydro.steps,
        {
            let ghost pre = self@;
            if !self.hydro.scheme().is_before(self.hydro.time(), t_end) {
                proof {
                    assert(is_march_over(trace.last(), t_end, self@, Ok(())));
                }
                return Ok(());
            }
            if self.hydro.steps() == usize::MAX {
                proof {
                    assert(is_march_over(trace.last(), t_end, self@, Err(LsdError::StepsExhausted)));
                }
                return Err(LsdError::StepsExhausted);
            }
            let limit: K::Real = match self.stable_dt() {
                Ok(limit) => limit,
                Err(e) => {
                    proof {
                        assert(is_march_over(trace.last(), t_end, self@, Err(e)));
                    }
                    return Err(e);
                },
            };
            let ghost sized = self@;
            let dt: K::Real = self.hydro.scheme().clip(limit, self.hydro.time(), t_end);
            proof {
                assert(is_sized(pre, t_end, sized, dt));
            }
            let advanced: Result<(), LsdError<K::Real>> = self.advance(dt);
            match advanced {
                Ok(_) => {},
                Err(e) => {
                    proof {
                        assert(is_march_refused(pre, t_end, self@, e));
                        assert(is_march_over(trace.last(), t_end, self@, Err(e)));
                    }
                    return Err(e);
                },
            }
            proof {
                let unit: () = advanced->Ok_0;
                assert(unit == ());
                assert(is_advance(sized, dt, self@, Ok(())));
                assert(is_marched(pre, t_end, self@));
                let longer = trace.push(self@);
                assert forall|i: int| 0 <= i < longer.len() - 1 implies #[trigger] is_marched_at(
                    longer,
                    t_end,
                    i,
                ) by {
                    if i < trace.len() - 1 {
                        assert(is_marched_at(trace, t_end, i));
                    }
                }
                trace = longer;
            }
        }
    }

    /// Position of the front: the laser-side edge of the pressure rise, at half
    /// the rise. `None` before there is one.
    pub fn front_position(&self) -> (r: Option<K::Real>)
        ensures
            is_front_position(self@, r),
    {
        let states: Vec<Primitive<K::Real>> = self.hydro.primitives();
        proof {
            assert(are_states(self@, states@));
        }
        find_front(self.hydro.scheme(), self.ambient, states.as_slice())
    }

    /// Advance by `span` and return the mean front speed over it, towards the
    /// laser.
    pub fn measure_front_speed(&mut self, span: K::Real) -> (r: Result<
        K::Real,
        LsdError<K::Real>,
    >)
        requires
            old(self).wf(),
        ensures
            final(self).wf(),
            is_speed_measured(old(self)@, span, final(self)@, r),
    {
        let ghost pre = self@;
        let x0: K::Real = match self.front_position() {
            Some(x) => x,
            None => {
                return Err(LsdError::NoFront);
            },
        };
        let t0: K::Real = self.hydro.time();
        let t_end: K::Real = self.hydro.scheme().plus(t0, span);
        let advanced: Result<(), LsdError<K::Real>> = self.advance_to(t_end);
        match advanced {
            Ok(_) => {},
            Err(e) => {
                proof {
                    assert(is_span_end(pre, span, x0, t_end, self@, Err(e)));
                }
                return Err(e);
            },
        }
        proof {
            let unit: () = advanced->Ok_0;
            assert(unit == ());
            assert(is_advance_to(pre, t_end, self@, Ok(())));
        }
        let x1: K::Real = match self.front_position() {
            Some(x) => x,
            None => {
                proof {
                    assert(is_span_end(
                        pre,
                        span,
                        x0,
                        t_end,
                        self@,
                        Err(LsdError::FrontVanished),
                    ));
                }
                return Err(LsdError::FrontVanished);
            },
        };
        let v: K::Real = self.hydro.scheme().mean_speed(x0, x1, t0, self.hydro.time());
        proof {
            assert(is_mean_speed(pre, x0, self@, v)) by {
                assert(is_front_position(self@, Some(x1)));
            }
            assert(is_span_end(pre, span, x0, t_end, self@, Ok(v)));
        }
        Ok(v)
    }
}

/// `v` is the mean speed of a front that was at `x0` in `pre` and is in `post`.
pub open spec fn is_mean_speed<K: Beam1d>(
    pre: Column1d<K>,
    x0: K::Real,
    post: Column1d<K>,
    v: K::Real,
) -> bool {
    exists|x1: K::Real| #[trigger]
        is_front_position(post, Some(x1)) && call_ensures(
            K::mean_speed,
            (&post.hydro.scheme, x0, x1, pre.hydro.time, post.hydro.time),
            v,
        )
}

/// How a speed measurement over `span` from a front at `x0` ends.
pub open spec fn is_span_end<K: Beam1d>(
    pre: Column1d<K>,
    span: K::Real,
    x0: K::Real,
    t_end: K::Real,
    post: Column1d<K>,
    r: Result<K::Real, LsdError<K::Real>>,
) -> bool {
    &&& is_front_position(pre, Some(x0))
    &&& call_ensures(K::plus, (&pre.hydro.scheme, pre.hydro.time, span), t_end)
    &&& match r {
        Ok(v) => {
            &&& is_advance_to(pre, t_end, post, Ok(()))
            &&& is_mean_speed(pre, x0, post, v)
        },
        Err(e) => {
            ||| is_advance_to(pre, t_end, post, Err(e))
            ||| {
                &&& e is FrontVanished
                &&& is_advance_to(pre, t_end, post, Ok(()))
                &&& is_front_position(post, None)
            }
        },
    }
}

/// What [`LsdColumn::measure_front_speed`] may do.
pub open spec fn is_speed_measured<K: Beam1d>(
    pre: Column1d<K>,
    span: K::Real,
    post: Column1d<K>,
    r: Result<K::Real, LsdError<K::Real>>,
) -> bool {
    ||| (r matches Err(e) && e is NoFront) && is_front_position(pre, None) && post == pre
    ||| exists|x0: K::Real, t_end: K::Real| #[trigger] is_span_end(pre, span, x0, t_end, post, r)
}

/// What asking a column for its optical depth may do.
pub open spec fn is_depth<K: Beam1d>(
    pre: Column1d<K>,
    post: Column1d<K>,
    r: Result<K::Real, LsdError<K::Real>>,
) -> bool {
    match r {
        Ok(depth) => is_depth_found(pre, post, depth),
        Err(e) => is_alpha_profile(pre, post, Err(e)),
    }
}

/// `depth` is the integral of the column's absorption.
pub open spec fn is_depth_found<K: Beam1d>(
    pre: Column1d<K>,
    post: Column1d<K>,
    depth: K::Real,
) -> bool {
    exists|alpha: Seq<K::Real>, sum: K::Real| #[trigger]
        is_sum(pre.hydro.scheme, alpha, sum) && is_alpha_profile(pre, post, Ok(alpha))
            && call_ensures(K::integral, (&pre.hydro.scheme, sum), depth)
}

/// What asking a column for its transmission may do.
pub open spec fn is_transmitted<K: Beam1d>(
    pre: Column1d<K>,
    post: Column1d<K>,
    r: Result<K::Real, LsdError<K::Real>>,
) -> bool {
    match r {
        Ok(fraction) => exists|depth: K::Real| #[trigger]
            is_depth_found(pre, post, depth) && call_ensures(
                K::transmission,
                (&pre.hydro.scheme, depth),
                fraction,
            ),
        Err(e) => is_alpha_profile(pre, post, Err(e)),
    }
}

/// Whether both end cells are still ambient.
pub open spec fn is_undisturbed<K: Beam1d>(c: Column1d<K>, b: bool) -> bool {
    exists|states: Seq<Primitive<K::Real>>|
        {
            &&& #[trigger] are_states(c, states)
            &&& {
                ||| call_ensures(K::is_quiet, (&c.hydro.scheme, states.first(), c.ambient), false)
                    && !b
                ||| call_ensures(K::is_quiet, (&c.hydro.scheme, states.first(), c.ambient), true)
                    && call_ensures(K::is_quiet, (&c.hydro.scheme, states.last(), c.ambient), b)
            }
        }
}

/// Cell `i` is the first that absorbs at least half of the largest `top`.
pub open spec fn is_absorption_front<K: Beam1d>(
    k: K,
    alpha: Seq<K::Real>,
    top: K::Real,
    i: int,
) -> bool {
    &&& 0 <= i < alpha.len()
    &&& call_ensures(K::is_strong_absorber, (&k, alpha[i], top), true)
    &&& none_strong(k, alpha.subrange(0, i), top)
}

/// No cell absorbs half of `top`.
pub open spec fn none_strong<K: Beam1d>(k: K, alpha: Seq<K::Real>, top: K::Real) -> bool {
    forall|j: int|
        0 <= j < alpha.len() ==> call_ensures(
            K::is_strong_absorber,
            (&k, #[trigger] alpha[j], top),
            false,
        )
}

/// First cell that absorbs at least half of the largest.
pub(crate) fn absorption_front<K: Beam1d>(k: &K, alpha: &[K::Real], top: K::Real) -> (r: Option<usize>)
    ensures
        match r {
            Some(i) => is_absorption_front(*k, alpha@, top, i as int),
            None => none_strong(*k, alpha@, top),
        },
{
    for i in 0..alpha.len()
        invariant
            none_strong(*k, alpha@.subrange(0, i as int), top),
    {
        if k.is_strong_absorber(alpha[i], top) {
            return Some(i);
        }
        proof {
            let longer = alpha@.subrange(0, i + 1);
            assert forall|j: int| 0 <= j < longer.len() implies call_ensures(
                K::is_strong_absorber,
                (k, #[trigger] longer[j], top),
                false,
            ) by {
                if j < i {
                    assert(longer[j] == alpha@.subrange(0, i as int)[j]);
                }
            }
        }
    }
    proof {
        assert(alpha@.subrange(0, alpha@.len() as int) =~= alpha@);
    }
    None
}

/// The fraction that reaches the front, once the absorption and its largest
/// value are known, from the column after the first look.
pub open spec fn is_fraction_known<K: Beam1d>(
    mid: Column1d<K>,
    alpha: Seq<K::Real>,
    top: K::Real,
    post: Column1d<K>,
    r: Result<K::Real, LsdError<K::Real>>,
) -> bool {
    let k = mid.hydro.scheme;
    let whole = (r matches Ok(f) && call_ensures(K::one, (&k,), f)) && post == mid;
    ||| call_ensures(K::absorbs, (&k, top), false) && whole
    ||| call_ensures(K::absorbs, (&k, top), true) && none_strong(k, alpha, top) && whole
    ||| call_ensures(K::absorbs, (&k, top), true) && is_fraction_at_front(mid, alpha, top, post, r)
}

/// The intensity at the front over the incident one, or why there is none.
pub open spec fn is_fraction_at_front<K: Beam1d>(
    mid: Column1d<K>,
    alpha: Seq<K::Real>,
    top: K::Real,
    post: Column1d<K>,
    r: Result<K::Real, LsdError<K::Real>>,
) -> bool {
    exists|i: int| #[trigger]
        is_absorption_front(mid.hydro.scheme, alpha, top, i) && match r {
            Ok(f) => is_fraction_there(mid, i, post, f),
            Err(e) => is_alpha_profile(mid, post, Err(e)),
        }
}

pub open spec fn is_fraction_there<K: Beam1d>(
    mid: Column1d<K>,
    i: int,
    post: Column1d<K>,
    f: K::Real,
) -> bool {
    exists|profile: Seq<K::Real>| #[trigger]
        is_profile(mid, post, profile) && call_ensures(
            K::ratio,
            (&mid.hydro.scheme, profile[i], mid.incident),
            f,
        )
}

/// What [`LsdColumn::fraction_reaching_front`] may do.
pub open spec fn is_fraction<K: Beam1d>(
    pre: Column1d<K>,
    post: Column1d<K>,
    r: Result<K::Real, LsdError<K::Real>>,
) -> bool {
    ||| r matches Err(e) && is_alpha_profile(pre, post, Err(e))
    ||| exists|mid: Column1d<K>, alpha: Seq<K::Real>, top: K::Real| #[trigger]
        is_looked_at(pre, mid, alpha, top) && is_fraction_known(mid, alpha, top, post, r)
}

/// `alpha` is the column's absorption and `top` the largest of it.
pub open spec fn is_looked_at<K: Beam1d>(
    pre: Column1d<K>,
    mid: Column1d<K>,
    alpha: Seq<K::Real>,
    top: K::Real,
) -> bool {
    &&& is_alpha_profile(pre, mid, Ok(alpha))
    &&& is_max_from_zero(pre.hydro.scheme, alpha, top)
}

/// The verdict on a column whose largest absorption is `top`: the conditions in
/// order, the first that fails naming the error.
pub open spec fn is_verdict<K: Beam1d>(
    mid: Column1d<K>,
    top: K::Real,
    post: Column1d<K>,
    r: Result<(), LsdError<K::Real>>,
) -> bool {
    let k = mid.hydro.scheme;
    let n = mid.hydro.cells.len() as usize;
    let absorbing = call_ensures(K::absorbs, (&k, top), true);
    let resolved = absorbing && call_ensures(K::is_resolved, (&k, top), true);
    let thin = resolved && call_ensures(K::is_thin, (&k, top, n), true);
    match r {
        Err(LsdError::NothingAbsorbs) => {
            call_ensures(K::absorbs, (&k, top), false) && post == mid
        },
        Err(LsdError::Unresolved { cells, finest_dx }) => {
            &&& absorbing && call_ensures(K::is_resolved, (&k, top), false)
            &&& call_ensures(K::cells_spanned, (&k, top), cells)
            &&& call_ensures(K::finest_spacing, (&k, top), finest_dx)
            &&& post == mid
        },
        Err(LsdError::Volumetric { share }) => {
            &&& resolved && call_ensures(K::is_thin, (&k, top, n), false)
            &&& call_ensures(K::share_spanned, (&k, top, n), share)
            &&& post == mid
        },
        Err(LsdError::Extinguished { fraction }) => {
            &&& thin
            &&& is_fraction(mid, post, Ok(fraction))
            &&& call_ensures(K::is_enough, (&k, fraction), false)
        },
        Err(LsdError::WeakFront { ratio }) => thin && is_beam_judged(mid, post, true)
            && is_front_weak(post, ratio),
        Err(e) => thin && is_fraction(mid, post, Err(e)),
        Ok(_) => thin && is_beam_judged(mid, post, true) && is_pressure_judged(post, true),
    }
}

/// `enough` says whether the fraction that reaches the front is.
pub open spec fn is_beam_judged<K: Beam1d>(
    mid: Column1d<K>,
    post: Column1d<K>,
    enough: bool,
) -> bool {
    exists|f: K::Real| #[trigger]
        is_fraction(mid, post, Ok(f)) && call_ensures(K::is_enough, (&mid.hydro.scheme, f), enough)
}

/// `strong` says whether the peak pressure is that of a strong detonation.
pub open spec fn is_pressure_judged<K: Beam1d>(c: Column1d<K>, strong: bool) -> bool {
    exists|states: Seq<Primitive<K::Real>>, p: Seq<K::Real>, p_max: K::Real| #[trigger]
        is_pressure_peak(c, states, p, p_max) && call_ensures(
            K::is_strong,
            (&c.hydro.scheme, p_max, c.ambient),
            strong,
        )
}

/// The peak pressure is not that of a strong detonation, but `ratio` of ambient.
pub open spec fn is_front_weak<K: Beam1d>(c: Column1d<K>, ratio: K::Real) -> bool {
    exists|states: Seq<Primitive<K::Real>>, p: Seq<K::Real>, p_max: K::Real|
        {
            &&& #[trigger] is_pressure_peak(c, states, p, p_max)
            &&& call_ensures(K::is_strong, (&c.hydro.scheme, p_max, c.ambient), false)
            &&& call_ensures(K::ratio, (&c.hydro.scheme, p_max, c.ambient.p), ratio)
        }
}

pub open spec fn is_pressure_peak<K: Beam1d>(
    c: Column1d<K>,
    states: Seq<Primitive<K::Real>>,
    p: Seq<K::Real>,
    p_max: K::Real,
) -> bool {
    &&& are_states(c, states)
    &&& are_pressures(c.hydro.scheme, states, p)
    &&& is_peak(c.hydro.scheme, p, p_max)
}

/// What [`LsdColumn::check_regime`] may do.
pub open spec fn is_regime_check<K: Beam1d>(
    pre: Column1d<K>,
    post: Column1d<K>,
    r: Result<(), LsdError<K::Real>>,
) -> bool {
    ||| r matches Err(e) && is_alpha_profile(pre, post, Err(e))
    ||| exists|mid: Column1d<K>, alpha: Seq<K::Real>, top: K::Real| #[trigger]
        is_looked_at(pre, mid, alpha, top) && is_verdict(mid, top, post, r)
}

impl<K: Beam1d> LsdColumn<K> {
    /// Total optical depth of the column.
    pub fn optical_depth(&mut self) -> (r: Result<K::Real, LsdError<K::Real>>)
        requires
            old(self).wf(),
        ensures
            final(self).wf(),
            is_depth(old(self)@, final(self)@, r),
            final(self)@.hydro == old(self)@.hydro,
    {
        let alpha: Vec<K::Real> = match self.alpha_profile() {
            Ok(alpha) => alpha,
            Err(e) => {
                return Err(e);
            },
        };
        let k: &K = self.hydro.scheme();
        let sum: K::Real = sum_of(k, alpha.as_slice());
        let depth: K::Real = k.integral(sum);
        proof {
            assert(is_sum(old(self)@.hydro.scheme, alpha@, sum));
            assert(is_depth_found(old(self)@, self@, depth));
        }
        Ok(depth)
    }

    /// Fraction of the beam that survives the whole column.
    pub fn transmitted_fraction(&mut self) -> (r: Result<
        K::Real,
        LsdError<K::Real>,
    >)
        requires
            old(self).wf(),
        ensures
            final(self).wf(),
            is_transmitted(old(self)@, final(self)@, r),
    {
        match self.optical_depth() {
            Ok(depth) => {
                let fraction: K::Real = self.hydro.scheme().transmission(depth);
                proof {
                    assert(is_depth_found(old(self)@, self@, depth));
                }
                Ok(fraction)
            },
            Err(e) => Err(e),
        }
    }

    /// Whether both end cells are still ambient, so that no energy has left the
    /// domain.
    pub fn boundaries_undisturbed(&self) -> (b: bool)
        requires
            self.wf(),
        ensures
            is_undisturbed(self@, b),
    {
        let k: &K = self.hydro.scheme();
        let states: Vec<Primitive<K::Real>> = self.hydro.primitives();
        proof {
            assert(are_states(self@, states@));
        }
        k.is_quiet(states[0], self.ambient) && k.is_quiet(states[states.len() - 1], self.ambient)
    }

    /// Fraction of the incident beam that reaches the leading edge of the
    /// strongly absorbing gas.
    pub fn fraction_reaching_front(&mut self) -> (r: Result<
        K::Real,
        LsdError<K::Real>,
    >)
        requires
            old(self).wf(),
        ensures
            final(self).wf(),
            is_fraction(old(self)@, final(self)@, r),
            final(self)@.hydro == old(self)@.hydro,
    {
        let alpha: Vec<K::Real> = match self.alpha_profile() {
            Ok(alpha) => alpha,
            Err(e) => {
                return Err(e);
            },
        };
        let ghost pre = old(self)@;
        let ghost mid = self@;
        let k: &K = self.hydro.scheme();
        let zero: K::Real = k.zero();
        let top: K::Real = max_of(k, zero, alpha.as_slice());
        proof {
            assert(is_max_from_zero(pre.hydro.scheme, alpha@, top));
            assert(is_looked_at(pre, mid, alpha@, top));
        }
        if !k.absorbs(top) {
            let one: K::Real = k.one();
            proof {
                assert(is_fraction_known(mid, alpha@, top, self@, Ok(one)));
            }
            return Ok(one);
        }
        match absorption_front(k, alpha.as_slice(), top) {
            None => {
                let one: K::Real = k.one();
                proof {
                    assert(is_fraction_known(mid, alpha@, top, self@, Ok(one)));
                }
                Ok(one)
            },
            Some(i) => match self.intensity_profile() {
                Ok(profile) => {
                    let f: K::Real = self.hydro.scheme().ratio(profile[i], self.incident);
                    proof {
                        assert(is_profile(mid, self@, profile@));
                        assert(is_fraction_there(mid, i as int, self@, f));
                        assert(is_absorption_front(mid.hydro.scheme, alpha@, top, i as int));
                        assert(is_fraction_at_front(mid, alpha@, top, self@, Ok(f)));
                        assert(is_fraction_known(mid, alpha@, top, self@, Ok(f)));
                    }
                    Ok(f)
                },
                Err(e) => {
                    proof {
                        assert(is_absorption_front(mid.hydro.scheme, alpha@, top, i as int));
                        assert(is_fraction_at_front(mid, alpha@, top, self@, Err(e)));
                        assert(is_fraction_known(mid, alpha@, top, self@, Err(e)));
                    }
                    Err(e)
                },
            },
        }
    }

    /// Whether the column is in the regime that the model describes: the
    /// absorption resolved and thin, the beam reaching the front, and the front
    /// strong.
    pub fn check_regime(&mut self) -> (r: Result<(), LsdError<K::Real>>)
        requires
            old(self).wf(),
        ensures
            final(self).wf(),
            is_regime_check(old(self)@, final(self)@, r),
            final(self)@.hydro == old(self)@.hydro,
    {
        let alpha: Vec<K::Real> = match self.alpha_profile() {
            Ok(alpha) => alpha,
            Err(e) => {
                return Err(e);
            },
        };
        let ghost pre = old(self)@;
        let ghost mid = self@;
        let n: usize = self.hydro.len();
        let k: &K = self.hydro.scheme();
        let zero: K::Real = k.zero();
        let top: K::Real = max_of(k, zero, alpha.as_slice());
        proof {
            assert(is_max_from_zero(pre.hydro.scheme, alpha@, top));
            assert(is_looked_at(pre, mid, alpha@, top));
        }
        if !k.absorbs(top) {
            proof {
                assert(is_verdict(mid, top, self@, Err(LsdError::NothingAbsorbs)));
            }
            return Err(LsdError::NothingAbsorbs);
        }
        if !k.is_resolved(top) {
            let e: LsdError<K::Real> = LsdError::Unresolved {
                cells: k.cells_spanned(top),
                finest_dx: k.finest_spacing(top),
            };
            proof {
                assert(is_verdict(mid, top, self@, Err(e)));
            }
            return Err(e);
        }
        if !k.is_thin(top, n) {
            let e: LsdError<K::Real> = LsdError::Volumetric { share: k.share_spanned(top, n) };
            proof {
                assert(is_verdict(mid, top, self@, Err(e)));
            }
            return Err(e);
        }
        let fraction: K::Real = match self.fraction_reaching_front() {
            Ok(f) => f,
            Err(e) => {
                proof {
                    lemma_fraction_refusal(mid, self@, e);
                    assert(is_verdict(mid, top, self@, Err(e)));
                }
                return Err(e);
            },
        };
        let k: &K = self.hydro.scheme();
        if !k.is_enough(fraction) {
            proof {
                assert(is_verdict(mid, top, self@, Err(LsdError::Extinguished { fraction })));
            }
            return Err(LsdError::Extinguished { fraction });
        }
        let states: Vec<Primitive<K::Real>> = self.hydro.primitives();
        let p: Vec<K::Real> = pressures(k, states.as_slice());
        let lowest: K::Real = k.lowest();
        let p_max: K::Real = max_of(k, lowest, p.as_slice());
        proof {
            assert(is_beam_judged(mid, self@, true));
            assert(is_peak(self@.hydro.scheme, p@, p_max));
            assert(is_pressure_peak(self@, states@, p@, p_max));
        }
        if !k.is_strong(p_max, self.ambient) {
            let ratio: K::Real = k.ratio(p_max, self.ambient.p);
            proof {
                assert(is_front_weak(self@, ratio));
                assert(is_verdict(mid, top, self@, Err(LsdError::WeakFront { ratio })));
            }
            return Err(LsdError::WeakFront { ratio });
        }
        proof {
            assert(is_pressure_judged(self@, true));
            assert(is_verdict(mid, top, self@, Ok(())));
        }
        Ok(())
    }
}

/// A refusal of the absorption model is the table's or the ceiling's.
proof fn lemma_absorption_refusal<K: Beam1d>(
    k: K,
    absorption: Absorption<K::Real>,
    w: Primitive<K::Real>,
    e: LsdError<K::Real>,
)
    requires
        is_absorption(k, absorption, w, Err(e)),
    ensures
        e is Table || e is AboveCeiling,
{
}

/// A fraction is refused for the absorption model's reasons only.
proof fn lemma_fraction_refusal<K: Beam1d>(
    pre: Column1d<K>,
    post: Column1d<K>,
    e: LsdError<K::Real>,
)
    requires
        is_fraction(pre, post, Err(e)),
    ensures
        e is Table || e is AboveCeiling,
{
    assert forall|a: Column1d<K>, b: Column1d<K>| #[trigger] is_alpha_profile(a, b, Err(e)) implies e
        is Table || e is AboveCeiling by {
        let (states, samples, records) = choose|
            states: Seq<Primitive<K::Real>>,
            samples: Seq<(K::Real, Option<K::Real>)>,
            records: Seq<Record<K::Real>>,
        |
            {
                &&& #[trigger] is_alpha_run(a, states, samples, records)
                &&& b == with_record(a, records.last())
                &&& samples.len() < states.len()
                &&& is_absorption(
                    a.hydro.scheme,
                    a.absorption,
                    states[samples.len() as int],
                    Err(e),
                )
            };
        lemma_absorption_refusal(a.hydro.scheme, a.absorption, states[samples.len() as int], e);
    }
}

/// The plasma as the propagator sees it: absorption, one coefficient per slab,
/// and no index perturbation. It is a snapshot, built from a column and never
/// written back.
#[derive(Debug, PartialEq)]
pub struct PlasmaColumn<R> {
    n: usize,
    alpha: Vec<R>,
}

impl<R> PlasmaColumn<R> {
    #[verifier::type_invariant]
    spec fn fits(self) -> bool {
        self.n * self.n <= usize::MAX
    }

    /// Samples across the transverse grid.
    pub closed spec fn spec_n(self) -> usize {
        self.n
    }
}

impl<R> View for PlasmaColumn<R> {
    type V = Seq<R>;

    closed spec fn view(&self) -> Seq<R> {
        self.alpha@
    }
}

/// Slab `i` is the first whose extinction is not physical.
pub open spec fn is_first_unphysical<K: Beam1d>(k: K, alpha: Seq<K::Real>, i: int) -> bool {
    &&& 0 <= i < alpha.len()
    &&& call_ensures(K::is_extinction, (&k, alpha[i]), false)
    &&& all_extinctions(k, alpha.subrange(0, i))
}

pub open spec fn all_extinctions<K: Beam1d>(k: K, alpha: Seq<K::Real>) -> bool {
    forall|j: int|
        0 <= j < alpha.len() ==> call_ensures(K::is_extinction, (&k, #[trigger] alpha[j]), true)
}

/// What building a plasma column from its coefficients may return.
pub open spec fn is_plasma<K: Beam1d>(
    k: K,
    n: usize,
    alpha: Seq<K::Real>,
    r: Result<PlasmaColumn<K::Real>, LsdError<K::Real>>,
) -> bool {
    let empty = n == 0 || alpha.len() == 0;
    match r {
        Ok(c) => !empty && all_extinctions(k, alpha) && c@ == alpha && c.spec_n() == n,
        Err(LsdError::EmptyColumn { n: m, slabs }) => empty && m == n && slabs == alpha.len(),
        Err(LsdError::BadExtinction { slab }) => !empty && is_first_unphysical(
            k,
            alpha,
            slab as int,
        ),
        Err(_) => false,
    }
}

/// What snapshotting a column may do.
pub open spec fn is_snapshot<K: Beam1d>(
    pre: Column1d<K>,
    n: usize,
    post: Column1d<K>,
    r: Result<PlasmaColumn<K::Real>, LsdError<K::Real>>,
) -> bool {
    ||| r matches Err(e) && is_alpha_profile(pre, post, Err(e))
    ||| exists|alpha: Seq<K::Real>| #[trigger]
        is_alpha_profile(pre, post, Ok(alpha)) && is_plasma(pre.hydro.scheme, n, alpha, r)
}

/// `a` is the mean of a slab's `per` cells.
pub open spec fn is_slab_mean<K: Beam1d>(
    k: K,
    alpha: Seq<K::Real>,
    per: int,
    j: int,
    a: K::Real,
) -> bool {
    exists|sum: K::Real| #[trigger]
        is_sum(k, alpha.subrange(j * per, (j + 1) * per), sum) && call_ensures(
            K::mean,
            (&k, sum, per as usize),
            a,
        )
}

/// `binned` are the means over consecutive slabs of `per` cells.
pub open spec fn is_binned<K: Beam1d>(
    k: K,
    alpha: Seq<K::Real>,
    per: int,
    binned: Seq<K::Real>,
) -> bool {
    &&& binned.len() * per == alpha.len()
    &&& forall|j: int|
        0 <= j < binned.len() ==> is_slab_mean(k, alpha, per, j, #[trigger] binned[j])
}

/// Whether `cells` fall into `slabs` equal slabs.
pub open spec fn divides(slabs: int, cells: int) -> bool {
    0 < slabs <= cells && cells % slabs == 0
}

/// What a resampled snapshot holds, once the absorption is known.
pub open spec fn is_resampling<K: Beam1d>(
    k: K,
    alpha: Seq<K::Real>,
    n: usize,
    n_slabs: usize,
    r: Result<(PlasmaColumn<K::Real>, K::Real), LsdError<K::Real>>,
) -> bool {
    let ragged = !divides(n_slabs as int, alpha.len() as int);
    match r {
        Err(LsdError::RaggedBinning { cells, slabs }) => {
            ragged && cells == alpha.len() && slabs == n_slabs
        },
        Err(e) => !ragged && exists|binned: Seq<K::Real>| #[trigger]
            is_binned(k, alpha, alpha.len() as int / n_slabs as int, binned) && is_plasma(
                k,
                n,
                binned,
                Err(e),
            ),
        Ok((c, dz)) => {
            &&& !ragged
            &&& c@.len() == n_slabs
            &&& is_binned(k, alpha, alpha.len() as int / n_slabs as int, c@)
            &&& is_plasma(k, n, c@, Ok(c))
            &&& call_ensures(K::thickness, (&k, (alpha.len() as int / n_slabs as int) as usize), dz)
        },
    }
}

/// What snapshotting a column onto coarser slabs may do.
pub open spec fn is_resampled<K: Beam1d>(
    pre: Column1d<K>,
    n: usize,
    n_slabs: usize,
    post: Column1d<K>,
    r: Result<(PlasmaColumn<K::Real>, K::Real), LsdError<K::Real>>,
) -> bool {
    ||| r matches Err(e) && is_alpha_profile(pre, post, Err(e))
    ||| exists|alpha: Seq<K::Real>| #[trigger]
        is_alpha_profile(pre, post, Ok(alpha)) && is_resampling(
            pre.hydro.scheme,
            alpha,
            n,
            n_slabs,
            r,
        )
}

/// Means over consecutive slabs of `per` values.
fn binned_means<K: Beam1d>(k: &K, alpha: &[K::Real], n_slabs: usize, per: usize) -> (binned: Vec<
    K::Real,
>)
    requires
        n_slabs * per == alpha@.len(),
    ensures
        binned@.len() == n_slabs,
        is_binned(*k, alpha@, per as int, binned@),
{
    let len: usize = alpha.len();
    let mut binned: Vec<K::Real> = Vec::with_capacity(n_slabs);
    for j in 0..n_slabs
        invariant
            len == alpha@.len(),
            n_slabs * per == len,
            binned@.len() == j,
            forall|i: int|
                0 <= i < j ==> is_slab_mean(*k, alpha@, per as int, i, #[trigger] binned@[i]),
    {
        proof {
            assert(j * per <= (j + 1) * per <= n_slabs * per) by (nonlinear_arith)
                requires
                    0 <= j < n_slabs,
                    0 <= per,
            ;
        }
        let sum: K::Real = sum_of(k, slice_subrange(alpha, j * per, (j + 1) * per));
        let a: K::Real = k.mean(sum, per);
        proof {
            assert(is_sum(
                *k,
                alpha@.subrange(j as int * per as int, (j as int + 1) * per as int),
                sum,
            ));
            assert(is_slab_mean(*k, alpha@, per as int, j as int, a));
        }
        binned.push(a);
    }
    binned
}

impl<R: Copy> PlasmaColumn<R> {
    /// A column of one coefficient per slab, on an `n` by `n` transverse grid.
    pub fn new<K: Beam1d<Real = R>>(k: &K, n: usize, alpha: Vec<R>) -> (r: Result<
        Self,
        LsdError<R>,
    >)
        requires
            n * n <= usize::MAX,
        ensures
            is_plasma(*k, n, alpha@, r),
    {
        if n == 0 || alpha.len() == 0 {
            return Err(LsdError::EmptyColumn { n, slabs: alpha.len() });
        }
        for i in 0..alpha.len()
            invariant
                n != 0,
                alpha@.len() != 0,
                all_extinctions(*k, alpha@.subrange(0, i as int)),
        {
            if !k.is_extinction(alpha[i]) {
                return Err(LsdError::BadExtinction { slab: i });
            }
            proof {
                let longer = alpha@.subrange(0, i + 1);
                assert forall|j: int| 0 <= j < longer.len() implies call_ensures(
                    K::is_extinction,
                    (k, #[trigger] longer[j]),
                    true,
                ) by {
                    if j < i {
                        assert(longer[j] == alpha@.subrange(0, i as int)[j]);
                    }
                }
            }
        }
        proof {
            assert(alpha@.subrange(0, alpha@.len() as int) =~= alpha@);
        }
        Ok(PlasmaColumn { n, alpha })
    }

    /// Snapshot of a column's absorption, one slab per cell.
    pub fn from_column<K: Beam1d<Real = R>>(column: &mut LsdColumn<K>, n: usize) -> (r: Result<
        Self,
        LsdError<R>,
    >)
        requires
            n * n <= usize::MAX,
        ensures
            is_snapshot(old(column)@, n, final(column)@, r),
    {
        match column.alpha_profile() {
            Ok(alpha) => {
                proof {
                    assert(is_alpha_profile(old(column)@, column@, Ok(alpha@)));
                }
                Self::new(column.hydro.scheme(), n, alpha)
            },
            Err(e) => Err(e),
        }
    }

    /// Snapshot of a column on `n_slabs` coarser slabs, and the slab thickness
    /// that the propagator has to be given for it. The cells must fall into
    /// that many equal slabs.
    pub fn from_column_resampled<K: Beam1d<Real = R>>(
        column: &mut LsdColumn<K>,
        n: usize,
        n_slabs: usize,
    ) -> (r: Result<(Self, R), LsdError<R>>)
        requires
            n * n <= usize::MAX,
        ensures
            is_resampled(old(column)@, n, n_slabs, final(column)@, r),
    {
        let alpha: Vec<R> = match column.alpha_profile() {
            Ok(alpha) => alpha,
            Err(e) => {
                return Err(e);
            },
        };
        let ghost k0 = old(column)@.hydro.scheme;
        proof {
            assert(is_alpha_profile(old(column)@, column@, Ok(alpha@)));
        }
        if n_slabs == 0 || n_slabs > alpha.len() || alpha.len() % n_slabs != 0 {
            let e: LsdError<R> = LsdError::RaggedBinning {
                cells: alpha.len(),
                slabs: n_slabs,
            };
            proof {
                assert(is_resampling(k0, alpha@, n, n_slabs, Err(e)));
            }
            return Err(e);
        }
        let per: usize = alpha.len() / n_slabs;
        proof {
            vstd::arithmetic::div_mod::lemma_fundamental_div_mod(
                alpha@.len() as int,
                n_slabs as int,
            );
        }
        let k: &K = column.hydro.scheme();
        let binned: Vec<R> = binned_means(k, alpha.as_slice(), n_slabs, per);
        let ghost means = binned@;
        proof {
            assert(is_binned(k0, alpha@, alpha@.len() as int / n_slabs as int, means));
        }
        match Self::new(k, n, binned) {
            Ok(c) => {
                let dz: R = k.thickness(per);
                proof {
                    assert(c@ == means);
                    assert(is_resampling(k0, alpha@, n, n_slabs, Ok((c, dz))));
                }
                Ok((c, dz))
            },
            Err(e) => {
                proof {
                    assert(is_resampling(k0, alpha@, n, n_slabs, Err(e)));
                }
                Err(e)
            },
        }
    }
}

impl<R: Copy, K: Optics<Real = R>> Medium<K> for PlasmaColumn<R> {
    type Refusal = ();

    fn index_perturbation(&self, optics: &K, z_slab: usize) -> (p: Plane<R>)
        ensures
            exists|zero: R| #[trigger]
                call_ensures(K::zero, (optics,), zero) && is_uniform(
                    p,
                    self.spec_n() as int,
                    zero,
                ),
    {
        proof {
            use_type_invariant(self);
        }
        let zero: R = optics.zero();
        Plane::filled(self.n, self.n, zero)
    }

    /// The coefficient of a slab that absorbs; nothing past the last slab.
    fn extinction(&self, optics: &K, z_slab: usize) -> (r: Option<Plane<R>>)
        ensures
            z_slab >= self@.len() ==> r is None,
            z_slab < self@.len() ==> is_slab_extinction(
                *optics,
                self@[z_slab as int],
                self.spec_n() as int,
                r,
            ),
    {
        proof {
            use_type_invariant(self);
        }
        if z_slab >= self.alpha.len() {
            return None;
        }
        let a: R = self.alpha[z_slab];
        let zero: R = optics.zero();
        if optics.exceeds(a, zero) {
            Some(Plane::filled(self.n, self.n, a))
        } else {
            None
        }
    }

    fn slab_count(&self, optics: &K) -> (r: Option<usize>)
        ensures
            r == Some(self@.len() as usize),
    {
        Some(self.alpha.len())
    }
}

/// The extinction of a slab of coefficient `a`: uniform if positive, else none.
pub open spec fn is_slab_extinction<K: Optics>(
    optics: K,
    a: K::Real,
    n: int,
    r: Option<Plane<K::Real>>,
) -> bool {
    exists|zero: K::Real|
        {
            &&& #[trigger] call_ensures(K::zero, (&optics,), zero)
            &&& match r {
                Some(p) => call_ensures(K::exceeds, (&optics, a, zero), true) && is_uniform(p, n, a),
                None => call_ensures(K::exceeds, (&optics, a, zero), false),
            }
        }
}

/// `size` measures reals exactly: zero is nothing and a sum is the sum.
pub open spec fn is_additive<K: Beam1d>(k: K, size: spec_fn(K::Real) -> real) -> bool {
    &&& forall|z: K::Real| #[trigger] call_ensures(K::zero, (&k,), z) ==> size(z) == 0real
    &&& forall|a: K::Real, b: K::Real, c: K::Real| #[trigger]
        call_ensures(K::plus, (&k, a, b), c) ==> size(c) == size(a) + size(b)
}

/// A sum measures as much as its terms.
pub proof fn lemma_sum_measures<K: Beam1d>(
    k: K,
    values: Seq<K::Real>,
    sum: K::Real,
    size: spec_fn(K::Real) -> real,
)
    requires
        is_additive(k, size),
        is_sum(k, values, sum),
    ensures
        size(sum) == tally(size, values),
{
    let run = choose|run: Seq<K::Real>| #[trigger] is_sum_run(k, values, run) && run.last() == sum;
    lemma_run_measures(k, values, run, size, values.len() as int);
    assert(values.subrange(0, values.len() as int) =~= values);
}

proof fn lemma_run_measures<K: Beam1d>(
    k: K,
    values: Seq<K::Real>,
    run: Seq<K::Real>,
    size: spec_fn(K::Real) -> real,
    m: int,
)
    requires
        is_additive(k, size),
        is_sum_run(k, values, run),
        0 <= m <= values.len(),
    ensures
        size(run[m]) == tally(size, values.subrange(0, m)),
    decreases m,
{
    if m > 0 {
        lemma_run_measures(k, values, run, size, m - 1);
        assert(values.subrange(0, m).drop_last() =~= values.subrange(0, m - 1));
        assert(values.subrange(0, m).last() == values[m - 1]);
        assert(call_ensures(K::plus, (&k, run[m - 1], values[m - 1]), run[m - 1 + 1]));
    }
}

/// A cell absorbs what the beam loses across it.
pub open spec fn absorbs_the_loss<K: Beam1d>(
    k: K,
    power: spec_fn(K::Real) -> real,
    density: spec_fn(K::Real) -> real,
) -> bool {
    forall|a: K::Real, b: K::Real, q: K::Real| #[trigger]
        call_ensures(K::absorbed, (&k, a, b), q) ==> density(q) == power(a) - power(b)
}

/// What the cells of a column absorb adds up to what the beam loses from the
/// first face to the last, whatever the absorption in between.
pub proof fn law_absorption_is_the_loss<K: Beam1d>(
    k: K,
    profile: Seq<K::Real>,
    q: Seq<K::Real>,
    power: spec_fn(K::Real) -> real,
    density: spec_fn(K::Real) -> real,
)
    requires
        is_absorbed(k, profile, q),
        absorbs_the_loss(k, power, density),
    ensures
        tally(density, q) == power(profile.first()) - power(profile.last()),
{
    lemma_losses_telescope(k, profile, q, power, density, q.len() as int);
    assert(q.subrange(0, q.len() as int) =~= q);
}

proof fn lemma_losses_telescope<K: Beam1d>(
    k: K,
    profile: Seq<K::Real>,
    q: Seq<K::Real>,
    power: spec_fn(K::Real) -> real,
    density: spec_fn(K::Real) -> real,
    m: int,
)
    requires
        is_absorbed(k, profile, q),
        absorbs_the_loss(k, power, density),
        0 <= m <= q.len(),
    ensures
        tally(density, q.subrange(0, m)) == power(profile[0]) - power(profile[m]),
    decreases m,
{
    if m > 0 {
        lemma_losses_telescope(k, profile, q, power, density, m - 1);
        assert(q.subrange(0, m).drop_last() =~= q.subrange(0, m - 1));
        assert(call_ensures(K::absorbed, (&k, profile[m - 1], profile[m - 1 + 1]), q[m - 1]));
    }
}

/// A coefficient that is not negative takes from a beam no more than there is, and
/// gives it nothing.
pub open spec fn only_dims<K: Beam1d>(k: K, size: spec_fn(K::Real) -> real) -> bool {
    forall|a: K::Real, c: K::Real, b: K::Real| #[trigger]
        call_ensures(K::attenuate, (&k, a, c), b) && size(a) >= 0real && size(c) >= 0real ==> 0real
            <= size(b) <= size(a)
}

/// A beam never brightens: where no coefficient is negative, its intensity nowhere
/// rises along the column, and stays at zero or above.
pub proof fn law_beam_never_brightens<K: Beam1d>(
    k: K,
    incident: K::Real,
    alpha: Seq<K::Real>,
    profile: Seq<K::Real>,
    size: spec_fn(K::Real) -> real,
    i: int,
    j: int,
)
    requires
        is_march(k, incident, alpha, profile),
        only_dims(k, size),
        size(incident) >= 0real,
        forall|c: int| 0 <= c < alpha.len() ==> size(#[trigger] alpha[c]) >= 0real,
        0 <= i <= j < profile.len(),
    ensures
        profile[0] == incident,
        0real <= size(profile[j]) <= size(profile[i]) <= size(incident),
    decreases j,
{
    if j > 0 {
        let before = if i < j {
            i
        } else {
            i - 1
        };
        law_beam_never_brightens(k, incident, alpha, profile, size, before, j - 1);
        assert(size(alpha[j - 1]) >= 0real);
        assert(call_ensures(K::attenuate, (&k, profile[j - 1], alpha[j - 1]), profile[j - 1 + 1]));
    }
}

/// Binning a column onto equal slabs preserves its optical depth: the slabs'
/// coefficients, each counted once per cell of the slab, are the cells'.
pub proof fn law_resampling_preserves_optical_depth<K: Beam1d>(
    k: K,
    alpha: Seq<K::Real>,
    per: int,
    binned: Seq<K::Real>,
    size: spec_fn(K::Real) -> real,
)
    requires
        per > 0,
        is_binned(k, alpha, per, binned),
        is_additive(k, size),
        forall|sum: K::Real, a: K::Real| #[trigger]
            call_ensures(K::mean, (&k, sum, per as usize), a) ==> per as real * size(a) == size(sum),
    ensures
        per as real * tally(size, binned) == tally(size, alpha),
{
    lemma_bins_measure(k, alpha, per, binned, size, binned.len() as int);
    assert(binned.subrange(0, binned.len() as int) =~= binned);
    assert(alpha.subrange(0, binned.len() * per) =~= alpha);
}

proof fn lemma_bins_measure<K: Beam1d>(
    k: K,
    alpha: Seq<K::Real>,
    per: int,
    binned: Seq<K::Real>,
    size: spec_fn(K::Real) -> real,
    m: int,
)
    requires
        per > 0,
        is_binned(k, alpha, per, binned),
        is_additive(k, size),
        forall|sum: K::Real, a: K::Real| #[trigger]
            call_ensures(K::mean, (&k, sum, per as usize), a) ==> per as real * size(a) == size(sum),
        0 <= m <= binned.len(),
    ensures
        0 <= m * per <= alpha.len(),
        per as real * tally(size, binned.subrange(0, m)) == tally(size, alpha.subrange(0, m * per)),
    decreases m,
{
    let len = binned.len() as int;
    assert(0 <= m * per <= len * per) by (nonlinear_arith)
        requires
            0 <= m <= len,
            per > 0,
    ;
    if m > 0 {
        lemma_bins_measure(k, alpha, per, binned, size, m - 1);
        let before = binned.subrange(0, m - 1);
        assert(binned.subrange(0, m).drop_last() =~= before);
        assert(is_slab_mean(k, alpha, per, m - 1, binned[m - 1]));
        let sum = choose|sum: K::Real| #[trigger]
            is_sum(k, alpha.subrange((m - 1) * per, (m - 1 + 1) * per), sum) && call_ensures(
                K::mean,
                (&k, sum, per as usize),
                binned[m - 1],
            );
        assert((m - 1 + 1) * per == (m - 1) * per + per) by (nonlinear_arith);
        let slab = alpha.subrange((m - 1) * per, m * per);
        lemma_sum_measures(k, slab, sum, size);
        lemma_tally_adds(size, alpha.subrange(0, (m - 1) * per), slab);
        assert(alpha.subrange(0, (m - 1) * per) + slab =~= alpha.subrange(0, m * per));
        let (x, y) = (tally(size, before), size(binned[m - 1]));
        let p = per as real;
        assert(p * (x + y) == p * x + p * y) by (nonlinear_arith);
    } else {
        assert(binned.subrange(0, 0).len() == 0);
        assert(m * per == 0) by (nonlinear_arith)
            requires
                m == 0,
        ;
        assert(alpha.subrange(0, m * per).len() == 0);
    }
}

/// A total over two lines is the sum of their totals.
pub proof fn lemma_tally_adds<S>(size: spec_fn(S) -> real, a: Seq<S>, b: Seq<S>)
    ensures
        tally(size, a + b) == tally(size, a) + tally(size, b),
    decreases b.len(),
{
    if b.len() == 0 {
        assert(a + b =~= a);
    } else {
        lemma_tally_adds(size, a, b.drop_last());
        assert((a + b).drop_last() =~= a + b.drop_last());
    }
}

/// A source that acts for `dt` adds `gain` of its rate to a cell's energy, and
/// the ledger takes the same of the summed rate.
pub open spec fn banks_what_it_heats<K: Beam1d>(
    k: K,
    dt: K::Real,
    stored: spec_fn(Conserved<K::Real>) -> real,
    gain: spec_fn(K::Real) -> real,
    banked: spec_fn(K::Real) -> real,
) -> bool {
    &&& is_additive(k, gain)
    &&& forall|u: Conserved<K::Real>, q: K::Real, v: Conserved<K::Real>| #[trigger]
        is_warmed(k, dt, u, q, v) ==> stored(v) == stored(u) + gain(q)
    &&& forall|total: K::Real, sum: K::Real, after: K::Real| #[trigger]
        call_ensures(K::bank, (&k, total, dt, sum), after) ==> banked(after) == banked(total) + gain(
            sum,
        )
}

/// Over a source step, the energy that the gas gains is the energy that the
/// ledger takes.
pub proof fn law_deposit_balances<K: Beam1d>(
    pre: Column1d<K>,
    dt: K::Real,
    post: Column1d<K>,
    stored: spec_fn(Conserved<K::Real>) -> real,
    gain: spec_fn(K::Real) -> real,
    banked: spec_fn(K::Real) -> real,
)
    requires
        is_deposit(pre, dt, post, Ok(())),
        banks_what_it_heats(pre.hydro.scheme, dt, stored, gain, banked),
    ensures
        tally(stored, post.hydro.cells) - tally(stored, pre.hydro.cells) == banked(post.deposited)
            - banked(pre.deposited),
{
    let k = pre.hydro.scheme;
    let (mid, q) = choose|mid: Column1d<K>, q: Seq<K::Real>| #[trigger]
        is_deposited(pre, mid, q) && #[trigger] is_banking(mid, dt, q, post, Ok(()));
    let sum = choose|sum: K::Real| #[trigger]
        is_sum(mid.hydro.scheme, q, sum) && call_ensures(
            K::bank,
            (&mid.hydro.scheme, mid.deposited, dt, sum),
            post.deposited,
        );
    lemma_sum_measures(k, q, sum, gain);
    let profile = choose|profile: Seq<K::Real>| #[trigger]
        is_absorbed(pre.hydro.scheme, profile, q) && is_profile(pre, mid, profile);
    let alpha = choose|alpha: Seq<K::Real>| #[trigger]
        is_march(pre.hydro.scheme, pre.incident, alpha, profile) && is_alpha_profile(
            pre,
            mid,
            Ok(alpha),
        );
    let n = mid.hydro.cells.len() as int;
    assert(q.len() == n);
    lemma_heat_measures(mid.hydro, dt, q, post.hydro.cells, stored, gain, n);
    assert(post.hydro.cells.subrange(0, n) =~= post.hydro.cells);
    assert(mid.hydro.cells.subrange(0, n) =~= mid.hydro.cells);
    assert(q.subrange(0, n) =~= q);
}

proof fn lemma_heat_measures<K: Beam1d>(
    pre: Domain1d<K>,
    dt: K::Real,
    q: Seq<K::Real>,
    heated: Seq<Conserved<K::Real>>,
    stored: spec_fn(Conserved<K::Real>) -> real,
    gain: spec_fn(K::Real) -> real,
    m: int,
)
    requires
        is_heating(pre, dt, listed(q), heated),
        forall|u: Conserved<K::Real>, r: K::Real, v: Conserved<K::Real>| #[trigger]
            is_warmed(pre.scheme, dt, u, r, v) ==> stored(v) == stored(u) + gain(r),
        q.len() == pre.cells.len(),
        0 <= m <= pre.cells.len(),
    ensures
        tally(stored, heated.subrange(0, m)) == tally(stored, pre.cells.subrange(0, m)) + tally(
            gain,
            q.subrange(0, m),
        ),
    decreases m,
{
    if m > 0 {
        lemma_heat_measures(pre, dt, q, heated, stored, gain, m - 1);
        assert(heated.subrange(0, m).drop_last() =~= heated.subrange(0, m - 1));
        assert(pre.cells.subrange(0, m).drop_last() =~= pre.cells.subrange(0, m - 1));
        assert(q.subrange(0, m).drop_last() =~= q.subrange(0, m - 1));
        assert(is_heated(
            pre.scheme,
            dt,
            listed(q),
            m - 1,
            pre.cells[m - 1],
            heated[m - 1],
        ));
    } else {
        assert(heated.subrange(0, 0) =~= pre.cells.subrange(0, 0));
    }
}

/// The energy budget of a coupled step: what the gas gains over the whole step is
/// what the beam deposited, but for what the two end interfaces of the hydro step
/// carry.
pub proof fn law_coupled_step_closes_the_budget<K: Beam1d>(
    pre: Column1d<K>,
    dt: K::Real,
    half: K::Real,
    a: Column1d<K>,
    b: Column1d<K>,
    post: Column1d<K>,
    worth: spec_fn(K::Real) -> real,
    lambda: real,
    gain: spec_fn(K::Real) -> real,
    banked: spec_fn(K::Real) -> real,
)
    requires
        is_advance_staged(pre, dt, half, a, b, post, Ok(())),
        banks_what_it_heats(pre.hydro.scheme, half, measured(Quantity::Energy, worth), gain, banked),
        is_exact(pre.hydro.scheme, dt, worth, lambda),
        forall|zero: K::Real| #[trigger]
            call_ensures(K::zero, (&pre.hydro.scheme,), zero) ==> heating_keeps(
                pre.hydro.scheme,
                dt,
                constant_rate(zero),
                measured(Quantity::Energy, worth),
            ),
    ensures
        exists|
            zero: K::Real,
            faces: Seq<(Conserved<K::Real>, Conserved<K::Real>)>,
            fluxes: Seq<Conserved<K::Real>>,
        |
            {
                &&& #[trigger] is_update(
                    a.hydro,
                    dt,
                    constant_rate(zero),
                    faces,
                    fluxes,
                    b.hydro.cells,
                )
                &&& tally(measured(Quantity::Energy, worth), post.hydro.cells) - tally(measured(Quantity::Energy, worth), pre.hydro.cells) == banked(
                    post.deposited,
                ) - banked(pre.deposited) + carried(Quantity::Energy, worth, lambda)(fluxes.first()) - carried(Quantity::Energy, worth, lambda)(fluxes.last())
            },
{
    law_deposit_balances(pre, half, a, measured(Quantity::Energy, worth), gain, banked);
    law_deposit_balances(b, half, post, measured(Quantity::Energy, worth), gain, banked);
    let zero = choose|zero: K::Real|
        #[trigger] call_ensures(K::zero, (&a.hydro.scheme,), zero) && is_step(
            a.hydro,
            dt,
            constant_rate(zero),
            b.hydro,
        );
    assert(heating_keeps(pre.hydro.scheme, dt, constant_rate(zero), measured(Quantity::Energy, worth)));
    law_step_conserves(
        a.hydro,
        dt,
        constant_rate(zero),
        b.hydro,
        Quantity::Energy,
        worth,
        lambda,
    );
}

/// While the gas at both ends is undisturbed, the budget closes to nothing: where
/// the two cells at either end are all in one state, as much enters through one end
/// as leaves through the other, and what the gas gains is what the beam deposited.
pub proof fn law_quiet_ends_close_the_budget<K: Beam1d>(
    pre: Column1d<K>,
    dt: K::Real,
    half: K::Real,
    a: Column1d<K>,
    b: Column1d<K>,
    post: Column1d<K>,
    worth: spec_fn(K::Real) -> real,
    lambda: real,
    gain: spec_fn(K::Real) -> real,
    banked: spec_fn(K::Real) -> real,
    quiet: Conserved<K::Real>,
)
    requires
        is_advance_staged(pre, dt, half, a, b, post, Ok(())),
        banks_what_it_heats(pre.hydro.scheme, half, measured(Quantity::Energy, worth), gain, banked),
        is_exact(pre.hydro.scheme, dt, worth, lambda),
        forall|zero: K::Real| #[trigger]
            call_ensures(K::zero, (&pre.hydro.scheme,), zero) ==> heating_keeps(
                pre.hydro.scheme,
                dt,
                constant_rate(zero),
                measured(Quantity::Energy, worth),
            ),
        is_deterministic(pre.hydro.scheme, dt),
        a.hydro.valid(),
        a.hydro.boundary == Boundary::Transmissive,
        a.hydro.cells[0] == quiet,
        a.hydro.cells[1] == quiet,
        a.hydro.cells[a.hydro.cells.len() - 2] == quiet,
        a.hydro.cells[a.hydro.cells.len() - 1] == quiet,
    ensures
        tally(measured(Quantity::Energy, worth), post.hydro.cells) - tally(measured(Quantity::Energy, worth), pre.hydro.cells) == banked(post.deposited)
            - banked(pre.deposited),
{
    law_coupled_step_closes_the_budget(
        pre,
        dt,
        half,
        a,
        b,
        post,
        worth,
        lambda,
        gain,
        banked,
    );
    let (zero, faces, fluxes) = choose|
        zero: K::Real,
        faces: Seq<(Conserved<K::Real>, Conserved<K::Real>)>,
        fluxes: Seq<Conserved<K::Real>>,
    |
        {
            &&& #[trigger] is_update(
                a.hydro,
                dt,
                constant_rate(zero),
                faces,
                fluxes,
                b.hydro.cells,
            )
            &&& tally(measured(Quantity::Energy, worth), post.hydro.cells) - tally(measured(Quantity::Energy, worth), pre.hydro.cells) == banked(
                post.deposited,
            ) - banked(pre.deposited) + carried(Quantity::Energy, worth, lambda)(fluxes.first()) - carried(Quantity::Energy, worth, lambda)(fluxes.last())
        };
    let n = a.hydro.cells.len() as int;
    let padded = ghosted(a.hydro.cells, a.hydro.boundary);
    assert(padded[0] == quiet && padded[1] == quiet && padded[2] == quiet && padded[3] == quiet);
    assert(padded[n] == quiet && padded[n + 1] == quiet && padded[n + 2] == quiet && padded[n + 3]
        == quiet);
    let k = a.hydro.scheme;
    lemma_cell_faces_are_one(k, dt, padded[0], padded[1], padded[2], faces[0], faces[n]);
    lemma_cell_faces_are_one(k, dt, padded[1], padded[2], padded[3], faces[1], faces[n + 1]);
    lemma_hllc_is_one(k, faces[0].1, faces[1].0, fluxes[0], fluxes[n]);
}

/// No cell gives light back: where no coefficient is negative, what is deposited in a
/// cell never is.
pub proof fn law_deposits_are_never_negative<K: Beam1d>(
    k: K,
    incident: K::Real,
    alpha: Seq<K::Real>,
    profile: Seq<K::Real>,
    q: Seq<K::Real>,
    size: spec_fn(K::Real) -> real,
    i: int,
)
    requires
        is_march(k, incident, alpha, profile),
        is_absorbed(k, profile, q),
        only_dims(k, size),
        size(incident) >= 0real,
        forall|c: int| 0 <= c < alpha.len() ==> size(#[trigger] alpha[c]) >= 0real,
        forall|a: K::Real, b: K::Real, d: K::Real| #[trigger]
            call_ensures(K::absorbed, (&k, a, b), d) && size(b) <= size(a) ==> size(d) >= 0real,
        0 <= i < q.len(),
    ensures
        size(q[i]) >= 0real,
{
    assert(call_ensures(K::absorbed, (&k, profile[i], profile[i + 1]), q[i]));
    law_beam_never_brightens(k, incident, alpha, profile, size, i, i + 1);
}

/// The clock of a scheme is exact in a measure: a step that is clipped at an end does
/// not pass it, and being short of an end is being smaller.
pub open spec fn keeps_time<K: Beam1d>(k: K, size: spec_fn(K::Real) -> real) -> bool {
    &&& forall|a: K::Real, b: K::Real, r: bool| #[trigger]
        call_ensures(K::is_before, (&k, a, b), r) ==> r == (size(a) < size(b))
    &&& forall|limit: K::Real, t: K::Real, t_end: K::Real, dt: K::Real, next: K::Real|
        #![trigger call_ensures(K::clip, (&k, limit, t, t_end), dt), call_ensures(K::plus, (&k, t, dt), next)]
        size(t) < size(t_end) && call_ensures(K::clip, (&k, limit, t, t_end), dt) && call_ensures(
            K::plus,
            (&k, t, dt),
            next,
        ) ==> size(next) <= size(t_end)
}

proof fn lemma_marched_keeps_time<K: Beam1d>(
    pre: Column1d<K>,
    t_end: K::Real,
    post: Column1d<K>,
    size: spec_fn(K::Real) -> real,
)
    requires
        is_marched(pre, t_end, post),
        keeps_time(pre.hydro.scheme, size),
    ensures
        post.hydro.scheme == pre.hydro.scheme,
        size(post.hydro.time) <= size(t_end),
{
    let (sized, dt) = choose|sized: Column1d<K>, dt: K::Real| #[trigger]
        is_sized(pre, t_end, sized, dt) && is_advance(sized, dt, post, Ok(()));
    let limit = choose|limit: K::Real|
        is_coupled_dt(pre, sized, Ok(limit)) && #[trigger] call_ensures(
            K::clip,
            (&pre.hydro.scheme, limit, pre.hydro.time, t_end),
            dt,
        );
    assert(sized.hydro == pre.hydro);
    let (half, a, b) = choose|half: K::Real, a: Column1d<K>, b: Column1d<K>| #[trigger]
        is_advance_staged(sized, dt, half, a, b, post, Ok(()));
    assert(a.hydro.time == pre.hydro.time && a.hydro.scheme == pre.hydro.scheme);
    assert(post.hydro.time == b.hydro.time && post.hydro.scheme == b.hydro.scheme);
    assert(call_ensures(K::plus, (&pre.hydro.scheme, pre.hydro.time, dt), b.hydro.time));
}

proof fn lemma_march_keeps_time<K: Beam1d>(
    pre: Column1d<K>,
    t_end: K::Real,
    trace: Seq<Column1d<K>>,
    size: spec_fn(K::Real) -> real,
    i: int,
)
    requires
        is_march_to(pre, t_end, trace),
        keeps_time(pre.hydro.scheme, size),
        size(pre.hydro.time) <= size(t_end),
        0 <= i < trace.len(),
    ensures
        trace[i].hydro.scheme == pre.hydro.scheme,
        size(trace[i].hydro.time) <= size(t_end),
    decreases i,
{
    if i > 0 {
        lemma_march_keeps_time(pre, t_end, trace, size, i - 1);
        assert(is_marched_at(trace, t_end, i - 1));
        lemma_marched_keeps_time(trace[i - 1], t_end, trace[i], size);
    }
}

/// A march ends on time: a column that is not past an end is at the end when the
/// march is over.
pub proof fn law_march_ends_on_time<K: Beam1d>(
    pre: Column1d<K>,
    t_end: K::Real,
    post: Column1d<K>,
    size: spec_fn(K::Real) -> real,
)
    requires
        is_advance_to(pre, t_end, post, Ok(())),
        keeps_time(pre.hydro.scheme, size),
        size(pre.hydro.time) <= size(t_end),
    ensures
        post.hydro.scheme == pre.hydro.scheme,
        size(post.hydro.time) == size(t_end),
{
    let trace = choose|trace: Seq<Column1d<K>>| #[trigger]
        is_march_to(pre, t_end, trace) && is_march_over(trace.last(), t_end, post, Ok(()));
    lemma_march_keeps_time(pre, t_end, trace, size, trace.len() - 1);
}

/// A look at the regime leaves the gas alone.
pub(crate) proof fn lemma_regime_check_keeps_the_gas<K: Beam1d>(
    pre: Column1d<K>,
    post: Column1d<K>,
)
    requires
        is_regime_check(pre, post, Ok(())),
    ensures
        post.hydro == pre.hydro,
{
}

} // verus!

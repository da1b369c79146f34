//! A spark, and the detonation that a beam then drives back up itself.
//!
//! The pulse that lights the gas and the beam that sustains the wave are two
//! separate things: the first is judged by the breakdown of the gas at the focus,
//! the second is what the column absorbs.
use crate::breakdown0d::{is_model, AirBreakdown, BreakdownError, Kinetics};
use crate::breakdown_case::Setup;
use crate::cases::is_launch;
use crate::euler1d::{viewed, Euler1d, EulerError, Primitive, Scheme1d, N_GHOST};
use crate::field::{is_power, raises_peak, Field, IntensityScale, ScaleError};
use crate::grid::Grid;
use crate::lsd::{
    are_states, is_absorption, is_advance_to, is_alpha_profile, is_coefficient, is_depth,
    is_front_position, is_intensity_profile, is_regime_check, is_seeded, is_sum, is_undisturbed,
    keeps_time, law_march_ends_on_time, lemma_regime_check_keeps_the_gas, sum_of, Absorption,
    Beam1d, Column1d, IonizationCeiling, LsdColumn, LsdError, SeededIgnition,
};
use crate::optics::{is_launchable, Optics};
use crate::plane::is_fold;
use crate::plasmaprops::PlasmaTable;
use vstd::prelude::*;

verus! {

/// Samples across the focal field.
pub const FOCAL_SAMPLES: usize = 128;

/// The fewest cells of a column.
pub const MIN_CELLS: usize = 8;

/// A spark and the column that it lights.
#[derive(Debug, Clone, Copy)]
pub struct LsdParams<R> {
    pub wavelength: R,
    /// Width at half maximum of the pulse that lights the gas.
    pub fwhm: R,
    /// Peak power of that pulse.
    pub ignite_power: R,
    /// Focal spot radius of that pulse.
    pub w_focus: R,
    /// Intensity of the beam that sustains the wave.
    pub drive: R,
    pub p0: R,
    pub t0: R,
    /// Column length.
    pub length: R,
    pub cells: usize,
    /// Absorption coefficient of the plasma.
    pub alpha: R,
    /// Fraction of the column that the front is to cross.
    pub cross_fraction: R,
    pub frames: usize,
    /// Time steps of the pulse that lights the gas.
    pub ignition_steps: usize,
}

/// The column at one instant.
#[derive(Debug)]
pub struct LsdFrame<R> {
    pub time: R,
    /// Front position; nothing before there is a front.
    pub front_x: Option<R>,
    pub optical_depth: R,
    /// Decimal logarithm of the transmitted fraction.
    pub log10_transmission: R,
    pub pressure: Vec<R>,
    pub density: Vec<R>,
    pub velocity: Vec<R>,
    pub absorption: Vec<R>,
    /// Intensity at the upstream face of each cell.
    pub intensity: Vec<R>,
}

/// The spark: its peak intensity, what it takes to light the gas, and whether it
/// does.
#[derive(Debug, Clone, Copy)]
pub struct Spark<R> {
    pub i_peak: R,
    pub i_threshold: R,
    pub ignited: bool,
}

/// The wave that the spark starts.
#[derive(Debug)]
pub struct Wave<R> {
    /// Front speed over the settled half; nothing with fewer than two fronts.
    pub d_measured: Option<R>,
    /// Cell centres.
    pub x: Vec<R>,
    pub frames: Vec<LsdFrame<R>>,
    pub deposited_energy: R,
    pub energy_residual: R,
    pub boundaries_undisturbed: bool,
    /// Inverse-bremsstrahlung absorption of the peak state at the run's
    /// wavelength, and its optical depth over the column.
    pub ib_alpha: Option<R>,
    pub ib_optical_depth: Option<R>,
    /// The same at the carbon-dioxide wavelength.
    pub ib_alpha_co2: Option<R>,
    pub ib_optical_depth_co2: Option<R>,
}

/// The result of a run. Gas that the spark does not light has no wave.
#[derive(Debug)]
pub struct LsdRun<R> {
    pub spark: Spark<R>,
    pub drive: R,
    /// Ambient density.
    pub rho_0: R,
    /// Closed-form speed of the wave.
    pub d_raizer: R,
    pub wave: Option<Wave<R>>,
}

/// Why a run has no result.
#[derive(Debug, PartialEq)]
pub enum LsdCaseError<R> {
    /// No length, or too few cells.
    BadColumn,
    TooFewFrames,
    /// The front would leave the column.
    BadCross,
    BadDrive,
    BadAmbient,
    /// The focus is not of some size, or the wavelength is not positive.
    BadFocus,
    Scale(ScaleError),
    Igniter(BreakdownError<R>),
    Threshold(BreakdownError<R>),
    Column(LsdError<R>),
    /// The wave is not one that the column describes.
    Regime(LsdError<R>),
}

/// The formulas of a run.
pub trait LsdCase: Sized {
    type Real: Copy;

    type Optics: Optics<Real = Self::Real>;

    type Kinetics: Kinetics<Real = Self::Real>;

    type Hydro: Beam1d<Real = Self::Real>;

    fn is_positive(&self, x: Self::Real) -> bool;

    /// Whether a quantity is positive and finite.
    fn is_valid(&self, x: Self::Real) -> bool;

    fn is_finite(&self, x: Self::Real) -> bool;

    /// Whether `a > b`.
    fn exceeds(&self, a: Self::Real, b: Self::Real) -> bool;

    fn minus(&self, a: Self::Real, b: Self::Real) -> Self::Real;

    fn times(&self, a: Self::Real, b: Self::Real) -> Self::Real;

    fn ratio(&self, a: Self::Real, b: Self::Real) -> Self::Real;

    fn negate(&self, a: Self::Real) -> Self::Real;

    /// A number of points as a real.
    fn members(&self, n: usize) -> Self::Real;

    /// Where the focus sits along the column.
    fn focus_fraction(&self) -> Self::Real;

    /// Spacing of the focal field for a spot radius.
    fn focal_spacing(&self, w_focus: Self::Real) -> Self::Real;

    fn optics(&self, spacing: Self::Real, wavelength: Self::Real) -> Self::Optics;

    fn kinetics(&self) -> Self::Kinetics;

    /// The gas and the focal region of the spark.
    fn setup(&self, wavelength: Self::Real) -> Setup<Self::Real>;

    fn ambient_density(&self, p0: Self::Real, t0: Self::Real) -> Self::Real;

    /// Closed-form speed of the wave.
    fn wave_speed(&self, drive: Self::Real, rho_0: Self::Real) -> Self::Real;

    /// The gas dynamics of a column of `cells` cells.
    fn hydro(&self, length: Self::Real, cells: usize) -> Self::Hydro;

    fn ambient(&self, rho_0: Self::Real, p0: Self::Real) -> Primitive<Self::Real>;

    /// Internal energy above which gas absorbs.
    fn ignition_energy(&self, rho_0: Self::Real, p0: Self::Real) -> Self::Real;

    /// The hot spot that starts the wave.
    fn hot_spot(&self, length: Self::Real, rho_0: Self::Real, speed: Self::Real) -> SeededIgnition<
        Self::Real,
    >;

    /// Time in which the wave crosses a fraction of the column.
    fn duration(&self, fraction: Self::Real, length: Self::Real, speed: Self::Real) -> Self::Real;

    /// Time of frame `frame` of `frames` over `t_end`.
    fn frame_time(&self, frame: usize, t_end: Self::Real, frames: usize) -> Self::Real;

    /// Centre of cell `i` of `cells`.
    fn cell_centre(&self, i: usize, length: Self::Real, cells: usize) -> Self::Real;

    /// Decimal logarithm of the transmission of an optical depth.
    fn log_transmission(&self, depth: Self::Real) -> Self::Real;

    fn co2_wavelength(&self) -> Self::Real;

    /// The Gaunt factor of the closure that is reported.
    fn gaunt(&self) -> Self::Real;

    /// The property table, where it can be had.
    fn table(&self) -> Option<PlasmaTable<Self::Real>>;
}

/// `peak` is the largest intensity of a field in physical units.
pub open spec fn is_physical_peak<O: Optics>(
    optics: O,
    field: Field<O::Real, O::Complex>,
    per_unit: O::Real,
    peak: O::Real,
) -> bool {
    exists|zero: O::Real, top: O::Real|
        {
            &&& #[trigger] call_ensures(O::zero, (&optics,), zero)
            &&& #[trigger] is_fold(
                field.u@,
                field.u.spec_width(),
                zero,
                raises_peak(optics),
                top,
            )
            &&& call_ensures(O::times, (&optics, per_unit, top), peak)
        }
}

/// `field` is the focal field of a spot radius.
pub open spec fn is_focal_field<K: LsdCase>(
    k: K,
    p: LsdParams<K::Real>,
    optics: K::Optics,
    field: Field<K::Real, <K::Optics as Optics>::Complex>,
) -> bool {
    exists|spacing: K::Real|
        {
            &&& #[trigger] call_ensures(K::focal_spacing, (&k, p.w_focus), spacing)
            &&& call_ensures(K::optics, (&k, spacing, p.wavelength), optics)
            &&& is_launchable(optics, spacing, p.wavelength, p.w_focus)
            &&& is_launch(
                optics,
                Grid { n: FOCAL_SAMPLES, dx: spacing },
                p.wavelength,
                p.w_focus,
                field,
            )
        }
}

/// The focus cannot be launched: its spacing is not positive and finite, or its
/// wavelength or its waist is not positive.
pub open spec fn is_focus_refused<K: LsdCase>(
    k: K,
    p: LsdParams<K::Real>,
    spacing: K::Real,
    optics: K::Optics,
) -> bool {
    &&& call_ensures(K::focal_spacing, (&k, p.w_focus), spacing)
    &&& call_ensures(K::optics, (&k, spacing, p.wavelength), optics)
    &&& {
        ||| call_ensures(<K::Optics as Optics>::is_positive, (&optics, spacing), false)
        ||| exists|zero: K::Real| #[trigger]
            call_ensures(<K::Optics as Optics>::zero, (&optics,), zero) && (call_ensures(
                <K::Optics as Optics>::exceeds,
                (&optics, p.wavelength, zero),
                false,
            ) || call_ensures(
                <K::Optics as Optics>::exceeds,
                (&optics, p.w_focus, zero),
                false,
            ))
    }
}

/// What the peak intensity at the focus may come to, in the units of a beam
/// power.
pub open spec fn is_focal_peak<O: Optics>(
    optics: O,
    beam_power: O::Real,
    field: Field<O::Real, O::Complex>,
    r: Result<O::Real, ScaleError>,
) -> bool {
    exists|power: O::Real| #[trigger]
        is_power(optics, field.u@, field.u.spec_width(), power) && match r {
            Ok(peak) => {
                &&& call_ensures(O::is_positive, (&optics, beam_power), true)
                &&& call_ensures(O::is_positive, (&optics, power), true)
                &&& is_scaled_peak(optics, beam_power, power, field, peak)
            },
            Err(ScaleError::BadBeamPower) => {
                call_ensures(O::is_positive, (&optics, beam_power), false)
            },
            Err(ScaleError::BadFieldPower) => {
                &&& call_ensures(O::is_positive, (&optics, beam_power), true)
                &&& call_ensures(O::is_positive, (&optics, power), false)
            },
        }
}

pub open spec fn is_scaled_peak<O: Optics>(
    optics: O,
    beam_power: O::Real,
    power: O::Real,
    field: Field<O::Real, O::Complex>,
    peak: O::Real,
) -> bool {
    exists|per_unit: O::Real| #[trigger]
        call_ensures(O::ratio, (&optics, beam_power, power), per_unit) && is_physical_peak(
            optics,
            field,
            per_unit,
            peak,
        )
}

/// Peak intensity of a field in the units of a beam power.
pub fn focal_peak<R: Copy, C: Copy, O: Optics<Real = R, Complex = C>>(
    optics: &O,
    beam_power: R,
    field: &Field<R, C>,
) -> (r: Result<R, ScaleError>)
    requires
        field.valid(),
    ensures
        is_focal_peak(*optics, beam_power, *field, r),
{
    let power: R = field.power(optics);
    proof {
        assert(is_power(*optics, field.u@, field.u.spec_width(), power));
    }
    match IntensityScale::from_beam_power(optics, beam_power, power) {
        Err(e) => Err(e),
        Ok(scale) => {
            let peak: R = field.peak_physical_intensity(optics, scale);
            proof {
                let per_unit = scale.spec_per_unit();
                assert(call_ensures(O::ratio, (optics, beam_power, power), per_unit));
                assert(is_physical_peak(*optics, *field, per_unit, peak));
                assert(is_scaled_peak(*optics, beam_power, power, *field, peak));
            }
            Ok(peak)
        },
    }
}

/// What lighting the spark may come to, from its peak intensity.
pub open spec fn is_spark_at<K: LsdCase>(
    k: K,
    p: LsdParams<K::Real>,
    i_peak: K::Real,
    r: Result<Spark<K::Real>, LsdCaseError<K::Real>>,
) -> bool {
    exists|kinetics: K::Kinetics, s: Setup<K::Real>|
        {
            &&& #[trigger] call_ensures(K::kinetics, (&k,), kinetics)
            &&& #[trigger] call_ensures(K::setup, (&k, p.wavelength), s)
            &&& match r {
                Err(LsdCaseError::Igniter(e)) => is_model(
                    kinetics,
                    s.wavelength,
                    s.gas,
                    s.focus,
                    s.temperature,
                    Err(e),
                ),
                Err(LsdCaseError::Threshold(e)) => exists|m: AirBreakdown<K::Kinetics>| #[trigger]
                    is_model(kinetics, s.wavelength, s.gas, s.focus, s.temperature, Ok(m))
                        && m@.is_threshold(p.fwhm, p.p0, p.ignition_steps, Err(e)),
                Err(_) => false,
                Ok(spark) => {
                    &&& spark.i_peak == i_peak
                    &&& exists|m: AirBreakdown<K::Kinetics>| #[trigger]
                        is_model(kinetics, s.wavelength, s.gas, s.focus, s.temperature, Ok(m))
                            && m@.is_threshold(
                            p.fwhm,
                            p.p0,
                            p.ignition_steps,
                            Ok(spark.i_threshold),
                        ) && m@.is_breakdown(
                            i_peak,
                            p.fwhm,
                            p.p0,
                            p.ignition_steps,
                            spark.ignited,
                        )
                },
            }
        }
}

/// What lighting the spark may come to.
pub open spec fn is_spark<K: LsdCase>(
    k: K,
    p: LsdParams<K::Real>,
    r: Result<Spark<K::Real>, LsdCaseError<K::Real>>,
) -> bool {
    ||| r is Err && r->Err_0 is BadFocus && exists|spacing: K::Real, optics: K::Optics| #[trigger]
        is_focus_refused(k, p, spacing, optics)
    ||| exists|optics: K::Optics, field: Field<K::Real, <K::Optics as Optics>::Complex>| #[trigger]
        is_focal_field(k, p, optics, field) && match r {
            Err(LsdCaseError::Scale(e)) => is_focal_peak(optics, p.ignite_power, field, Err(e)),
            _ => exists|peak: K::Real| #[trigger]
                is_focal_peak(optics, p.ignite_power, field, Ok(peak)) && is_spark_at(
                    k,
                    p,
                    peak,
                    r,
                ),
        }
}

/// Light the spark.
pub fn light_spark<K: LsdCase>(k: &K, p: &LsdParams<K::Real>) -> (r: Result<
    Spark<K::Real>,
    LsdCaseError<K::Real>,
>)
    ensures
        is_spark(*k, *p, r),
{
    let spacing: K::Real = k.focal_spacing(p.w_focus);
    let optics: K::Optics = k.optics(spacing, p.wavelength);
    let zero: K::Real = optics.zero();
    if !optics.is_positive(spacing) || !optics.exceeds(p.wavelength, zero) || !optics.exceeds(
        p.w_focus,
        zero,
    ) {
        proof {
            assert(is_focus_refused(*k, *p, spacing, optics));
        }
        return Err(LsdCaseError::BadFocus);
    }
    let grid: Grid<K::Real> = Grid::new(&optics, FOCAL_SAMPLES, spacing);
    let field: Field<K::Real, <K::Optics as Optics>::Complex> = Field::gaussian(
        &optics,
        grid,
        p.wavelength,
        p.w_focus,
    );
    proof {
        assert(is_launch(optics, grid, p.wavelength, p.w_focus, field));
        assert(is_focal_field(*k, *p, optics, field));
    }
    let i_peak: K::Real = match focal_peak(&optics, p.ignite_power, &field) {
        Ok(peak) => peak,
        Err(e) => {
            return Err(LsdCaseError::Scale(e));
        },
    };
    proof {
        assert(is_focal_peak(optics, p.ignite_power, field, Ok(i_peak)));
    }
    let r: Result<
        Spark<K::Real>,
        LsdCaseError<K::Real>,
    > = spark_at(k, p, i_peak);
    r
}

/// Light the spark of a peak intensity.
pub fn spark_at<K: LsdCase>(k: &K, p: &LsdParams<K::Real>, i_peak: K::Real) -> (r: Result<
    Spark<K::Real>,
    LsdCaseError<K::Real>,
>)
    ensures
        is_spark_at(*k, *p, i_peak, r),
{
    let kinetics: K::Kinetics = k.kinetics();
    let s: Setup<K::Real> = k.setup(p.wavelength);
    let ghost kin = kinetics;
    let igniter: AirBreakdown<K::Kinetics> = match AirBreakdown::new(
        kinetics,
        s.wavelength,
        s.gas,
        s.focus,
        s.temperature,
    ) {
        Ok(m) => m,
        Err(e) => {
            return Err(LsdCaseError::Igniter(e));
        },
    };
    proof {
        assert(is_model(kin, s.wavelength, s.gas, s.focus, s.temperature, Ok(igniter)));
    }
    match igniter.threshold_intensity(p.fwhm, p.p0, p.ignition_steps) {
        Err(e) => Err(LsdCaseError::Threshold(e)),
        Ok(i_threshold) => {
            let ignited: bool = igniter.breaks_down(i_peak, p.fwhm, p.p0, p.ignition_steps);
            Ok(Spark { i_peak, i_threshold, ignited })
        },
    }
}

/// The states of a column as pressure, density and velocity.
pub open spec fn are_profiles<R>(
    states: Seq<Primitive<R>>,
    pressure: Seq<R>,
    density: Seq<R>,
    velocity: Seq<R>,
) -> bool {
    &&& pressure.len() == density.len() == velocity.len() == states.len()
    &&& forall|i: int|
        #![trigger states[i]]
        0 <= i < states.len() ==> {
            &&& pressure[i] == states[i].p
            &&& density[i] == states[i].rho
            &&& velocity[i] == states[i].u
        }
}

/// The columns between the looks that a frame takes.
pub struct Looks<H: Beam1d> {
    /// At the time of the frame.
    pub arrived: Column1d<H>,
    /// After the regime was looked at.
    pub judged: Column1d<H>,
    /// After the absorption was asked for.
    pub absorbing: Column1d<H>,
    /// After the intensity was asked for.
    pub lit: Column1d<H>,
}

/// The column reaches the time of frame `i`; the second frame looks at the
/// regime.
pub open spec fn is_arrival<K: LsdCase>(
    k: K,
    p: LsdParams<K::Real>,
    t_end: K::Real,
    i: int,
    pre: Column1d<K::Hydro>,
    arrived: Column1d<K::Hydro>,
    judged: Column1d<K::Hydro>,
) -> bool {
    &&& is_frame_reached(k, p, t_end, i, pre, arrived, Ok(()))
    &&& if i == 1 {
        is_regime_check(arrived, judged, Ok(()))
    } else {
        judged == arrived
    }
}

/// What the march to frame `i` may do.
pub open spec fn is_frame_reached<K: LsdCase>(
    k: K,
    p: LsdParams<K::Real>,
    t_end: K::Real,
    i: int,
    pre: Column1d<K::Hydro>,
    post: Column1d<K::Hydro>,
    r: Result<(), LsdError<K::Real>>,
) -> bool {
    exists|t: K::Real| #[trigger]
        call_ensures(K::frame_time, (&k, i as usize, t_end, p.frames), t) && is_advance_to(
            pre,
            t,
            post,
            r,
        )
}

/// `f` is what a column shows.
pub open spec fn is_frame_of<K: LsdCase>(
    k: K,
    looks: Looks<K::Hydro>,
    post: Column1d<K::Hydro>,
    states: Seq<Primitive<K::Real>>,
    faces: Seq<K::Real>,
    f: LsdFrame<K::Real>,
) -> bool {
    &&& are_states(looks.judged, states)
    &&& are_profiles(states, f.pressure@, f.density@, f.velocity@)
    &&& is_alpha_profile(looks.judged, looks.absorbing, Ok(f.absorption@))
    &&& is_intensity_profile(looks.absorbing, looks.lit, Ok(faces))
    &&& faces.len() == states.len() + 1
    &&& f.intensity@ == faces.drop_last()
    &&& is_depth(looks.lit, post, Ok(f.optical_depth))
    &&& f.time == post.hydro.time
    &&& is_front_position(post, f.front_x)
    &&& call_ensures(K::log_transmission, (&k, f.optical_depth), f.log10_transmission)
}

/// Frame `i` is taken, and leaves the column at `post`.
pub open spec fn is_frame_taken<K: LsdCase>(
    k: K,
    p: LsdParams<K::Real>,
    t_end: K::Real,
    i: int,
    pre: Column1d<K::Hydro>,
    looks: Looks<K::Hydro>,
    post: Column1d<K::Hydro>,
    f: LsdFrame<K::Real>,
) -> bool {
    &&& is_arrival(k, p, t_end, i, pre, looks.arrived, looks.judged)
    &&& exists|states: Seq<Primitive<K::Real>>, faces: Seq<K::Real>| #[trigger]
        is_frame_of(k, looks, post, states, faces, f)
}

/// Why frame `i` cannot be taken.
pub open spec fn is_frame_refused<K: LsdCase>(
    k: K,
    p: LsdParams<K::Real>,
    t_end: K::Real,
    i: int,
    pre: Column1d<K::Hydro>,
    looks: Looks<K::Hydro>,
    post: Column1d<K::Hydro>,
    e: LsdCaseError<K::Real>,
) -> bool {
    match e {
        LsdCaseError::Regime(e) => {
            &&& i == 1
            &&& is_frame_reached(k, p, t_end, i, pre, looks.arrived, Ok(()))
            &&& is_regime_check(looks.arrived, post, Err(e))
        },
        LsdCaseError::Column(e) => {
            ||| is_frame_reached(k, p, t_end, i, pre, post, Err(e))
            ||| {
                &&& is_arrival(k, p, t_end, i, pre, looks.arrived, looks.judged)
                &&& {
                    ||| is_alpha_profile(looks.judged, post, Err(e))
                    ||| is_absorbing(looks) && is_intensity_profile(looks.absorbing, post, Err(e))
                    ||| is_absorbing(looks) && is_lit(looks) && is_depth(looks.lit, post, Err(e))
                }
            }
        },
        _ => false,
    }
}

pub open spec fn is_absorbing<H: Beam1d>(looks: Looks<H>) -> bool {
    exists|alpha: Seq<H::Real>| #[trigger]
        is_alpha_profile(looks.judged, looks.absorbing, Ok(alpha))
}

pub open spec fn is_lit<H: Beam1d>(looks: Looks<H>) -> bool {
    exists|faces: Seq<H::Real>| #[trigger]
        is_intensity_profile(looks.absorbing, looks.lit, Ok(faces))
}

/// What taking frame `i` may do.
pub open spec fn is_frame<K: LsdCase>(
    k: K,
    p: LsdParams<K::Real>,
    t_end: K::Real,
    i: int,
    pre: Column1d<K::Hydro>,
    post: Column1d<K::Hydro>,
    r: Result<LsdFrame<K::Real>, LsdCaseError<K::Real>>,
) -> bool {
    match r {
        Ok(f) => exists|looks: Looks<K::Hydro>| #[trigger]
            is_frame_taken(k, p, t_end, i, pre, looks, post, f),
        Err(e) => exists|looks: Looks<K::Hydro>| #[trigger]
            is_frame_refused(k, p, t_end, i, pre, looks, post, e),
    }
}

/// Pressure, density and velocity of some states.
fn profiles_of<R: Copy>(states: &[Primitive<R>]) -> (r: (Vec<R>, Vec<R>, Vec<R>))
    ensures
        are_profiles(states@, r.0@, r.1@, r.2@),
{
    let mut pressure: Vec<R> = Vec::with_capacity(states.len());
    let mut density: Vec<R> = Vec::with_capacity(states.len());
    let mut velocity: Vec<R> = Vec::with_capacity(states.len());
    for i in 0..states.len()
        invariant
            pressure@.len() == i,
            density@.len() == i,
            velocity@.len() == i,
            forall|l: int|
                #![trigger states@[l]]
                0 <= l < i ==> {
                    &&& pressure@[l] == states@[l].p
                    &&& density@[l] == states@[l].rho
                    &&& velocity@[l] == states@[l].u
                },
    {
        pressure.push(states[i].p);
        density.push(states[i].rho);
        velocity.push(states[i].u);
    }
    (pressure, density, velocity)
}

/// Take frame `i` of a column.
pub fn take_frame<K: LsdCase>(
    k: &K,
    p: &LsdParams<K::Real>,
    t_end: K::Real,
    i: usize,
    column: &mut LsdColumn<K::Hydro>,
) -> (r: Result<LsdFrame<K::Real>, LsdCaseError<K::Real>>)
    requires
        old(column).wf(),
    ensures
        final(column).wf(),
        is_frame(*k, *p, t_end, i as int, old(column)@, final(column)@, r),
{
    let ghost pre = column@;
    let ghost mut looks = Looks { arrived: pre, judged: pre, absorbing: pre, lit: pre };
    let t: K::Real = k.frame_time(i, t_end, p.frames);
    let reached: Result<(), LsdError<K::Real>> = column.advance_to(t);
    proof {
        assert(call_ensures(K::frame_time, (k, i, t_end, p.frames), t));
        assert(is_frame_reached(*k, *p, t_end, i as int, pre, column@, reached));
    }
    match reached {
        Err(e) => {
            proof {
                assert(is_frame_refused(
                    *k,
                    *p,
                    t_end,
                    i as int,
                    pre,
                    looks,
                    column@,
                    LsdCaseError::Column(e),
                ));
            }
            return Err(LsdCaseError::Column(e));
        },
        Ok(_) => {},
    }
    proof {
        let unit: () = reached->Ok_0;
        assert(unit == ());
        looks = Looks { arrived: column@, judged: column@, absorbing: pre, lit: pre };
    }
    if i == 1 {
        let judged: Result<(), LsdError<K::Real>> = column.check_regime();
        match judged {
            Err(e) => {
                proof {
                    assert(is_frame_refused(
                        *k,
                        *p,
                        t_end,
                        i as int,
                        pre,
                        looks,
                        column@,
                        LsdCaseError::Regime(e),
                    ));
                }
                return Err(LsdCaseError::Regime(e));
            },
            Ok(_) => {},
        }
        proof {
            let unit: () = judged->Ok_0;
            assert(unit == ());
            looks = Looks { arrived: looks.arrived, judged: column@, absorbing: pre, lit: pre };
        }
    }
    proof {
        assert(is_arrival(*k, *p, t_end, i as int, pre, looks.arrived, looks.judged));
    }
    let states: Vec<Primitive<K::Real>> = column.hydro().primitives();
    let (pressure, density, velocity): (Vec<K::Real>, Vec<K::Real>, Vec<K::Real>) = profiles_of(
        states.as_slice(),
    );
    proof {
        assert(are_states(looks.judged, states@));
    }
    let absorption: Vec<K::Real> = match column.alpha_profile() {
        Ok(a) => a,
        Err(e) => {
            proof {
                assert(is_frame_refused(
                    *k,
                    *p,
                    t_end,
                    i as int,
                    pre,
                    looks,
                    column@,
                    LsdCaseError::Column(e),
                ));
            }
            return Err(LsdCaseError::Column(e));
        },
    };
    proof {
        looks = Looks { absorbing: column@, ..looks };
        assert(is_alpha_profile(looks.judged, looks.absorbing, Ok(absorption@)));
        assert(is_absorbing(looks));
    }
    let mut faces: Vec<K::Real> = match column.intensity_profile() {
        Ok(a) => a,
        Err(e) => {
            proof {
                assert(is_frame_refused(
                    *k,
                    *p,
                    t_end,
                    i as int,
                    pre,
                    looks,
                    column@,
                    LsdCaseError::Column(e),
                ));
            }
            return Err(LsdCaseError::Column(e));
        },
    };
    let ghost all_faces = faces@;
    proof {
        looks = Looks { lit: column@, ..looks };
        assert(is_intensity_profile(looks.absorbing, looks.lit, Ok(all_faces)));
        assert(is_lit(looks));
    }
    let optical_depth: K::Real = match column.optical_depth() {
        Ok(a) => a,
        Err(e) => {
            proof {
                assert(is_frame_refused(
                    *k,
                    *p,
                    t_end,
                    i as int,
                    pre,
                    looks,
                    column@,
                    LsdCaseError::Column(e),
                ));
            }
            return Err(LsdCaseError::Column(e));
        },
    };
    let _ = faces.pop();
    let f: LsdFrame<K::Real> = LsdFrame {
        time: column.hydro().time(),
        front_x: column.front_position(),
        optical_depth,
        log10_transmission: k.log_transmission(optical_depth),
        pressure,
        density,
        velocity,
        absorption,
        intensity: faces,
    };
    proof {
        assert(f.intensity@ =~= all_faces.drop_last());
        assert(is_frame_of(*k, looks, column@, states@, all_faces, f));
        assert(is_frame_taken(*k, *p, t_end, i as int, pre, looks, column@, f));
    }
    Ok(f)
}

/// Frame `i` of a run of columns.
pub open spec fn is_frame_leg<K: LsdCase>(
    k: K,
    p: LsdParams<K::Real>,
    t_end: K::Real,
    columns: Seq<Column1d<K::Hydro>>,
    frames: Seq<LsdFrame<K::Real>>,
    i: int,
) -> bool {
    is_frame(k, p, t_end, i, columns[i], columns[i + 1], Ok(frames[i]))
}

/// `columns[i]` is the column before frame `i`, and the last one the column
/// after all of them.
pub open spec fn are_frames<K: LsdCase>(
    k: K,
    p: LsdParams<K::Real>,
    t_end: K::Real,
    columns: Seq<Column1d<K::Hydro>>,
    frames: Seq<LsdFrame<K::Real>>,
) -> bool {
    &&& columns.len() == frames.len() + 1
    &&& forall|i: int|
        0 <= i < frames.len() ==> #[trigger] is_frame_leg(k, p, t_end, columns, frames, i)
}

/// The frames of a column until one cannot be taken.
pub open spec fn is_frames_cut<K: LsdCase>(
    k: K,
    p: LsdParams<K::Real>,
    t_end: K::Real,
    columns: Seq<Column1d<K::Hydro>>,
    frames: Seq<LsdFrame<K::Real>>,
    post: Column1d<K::Hydro>,
    e: LsdCaseError<K::Real>,
) -> bool {
    &&& are_frames(k, p, t_end, columns, frames)
    &&& frames.len() < p.frames
    &&& is_frame(k, p, t_end, frames.len() as int, columns.last(), post, Err(e))
}

/// What taking all frames may do.
pub open spec fn is_recording<K: LsdCase>(
    k: K,
    p: LsdParams<K::Real>,
    t_end: K::Real,
    pre: Column1d<K::Hydro>,
    post: Column1d<K::Hydro>,
    r: Result<Seq<LsdFrame<K::Real>>, LsdCaseError<K::Real>>,
) -> bool {
    match r {
        Ok(frames) => {
            &&& frames.len() == p.frames
            &&& exists|columns: Seq<Column1d<K::Hydro>>| #[trigger]
                are_frames(k, p, t_end, columns, frames) && columns[0] == pre && columns.last()
                    == post
        },
        Err(e) => exists|columns: Seq<Column1d<K::Hydro>>, frames: Seq<LsdFrame<K::Real>>|
         #[trigger]
            is_frames_cut(k, p, t_end, columns, frames, post, e) && columns[0] == pre,
    }
}

/// Take all frames of a column.
pub fn take_frames<K: LsdCase>(
    k: &K,
    p: &LsdParams<K::Real>,
    t_end: K::Real,
    column: &mut LsdColumn<K::Hydro>,
) -> (r: Result<Vec<LsdFrame<K::Real>>, LsdCaseError<K::Real>>)
    requires
        old(column).wf(),
    ensures
        final(column).wf(),
        is_recording(*k, *p, t_end, old(column)@, final(column)@, viewed(r)),
{
    let ghost mut columns: Seq<Column1d<K::Hydro>> = seq![column@];
    let mut frames: Vec<LsdFrame<K::Real>> = Vec::new();
    let n: usize = p.frames;
    for i in 0..n
        invariant
            n == p.frames,
            column.wf(),
            frames@.len() == i,
            columns[0] == old(column)@,
            columns.last() == column@,
            are_frames(*k, *p, t_end, columns, frames@),
    {
        let ghost shorter = frames@;
        match take_frame(k, p, t_end, i, column) {
            Err(e) => {
                proof {
                    assert(is_frames_cut(*k, *p, t_end, columns, frames@, column@, e));
                }
                return Err(e);
            },
            Ok(f) => {
                frames.push(f);
                proof {
                    let c2 = columns.push(column@);
                    assert forall|l: int| 0 <= l < frames@.len() implies #[trigger] is_frame_leg(
                        *k,
                        *p,
                        t_end,
                        c2,
                        frames@,
                        l,
                    ) by {
                        if l < i {
                            assert(is_frame_leg(*k, *p, t_end, columns, shorter, l));
                        }
                    }
                    columns = c2;
                }
            },
        }
    }
    Ok(frames)
}

/// `points` are the times and positions of the fronts of frames `from` to `upto`,
/// a front that is not finite left out.
pub open spec fn are_settled<K: LsdCase>(
    k: K,
    frames: Seq<LsdFrame<K::Real>>,
    from: int,
    upto: int,
    points: Seq<(K::Real, K::Real)>,
) -> bool
    decreases upto - from,
{
    if upto <= from {
        points.len() == 0
    } else {
        let f = frames[upto - 1];
        match f.front_x {
            None => are_settled(k, frames, from, upto - 1, points),
            Some(x) => {
                ||| call_ensures(K::is_finite, (&k, x), false) && are_settled(
                    k,
                    frames,
                    from,
                    upto - 1,
                    points,
                )
                ||| call_ensures(K::is_finite, (&k, x), true) && points.len() > 0 && points.last()
                    == (f.time, x) && are_settled(k, frames, from, upto - 1, points.drop_last())
            },
        }
    }
}

/// The fronts of the later half of some frames.
fn settled_half<K: LsdCase>(k: &K, frames: &[LsdFrame<K::Real>]) -> (points: Vec<(K::Real, K::Real)>)
    ensures
        are_settled(*k, frames@, frames@.len() as int / 2, frames@.len() as int, points@),
{
    let half: usize = frames.len() / 2;
    let mut points: Vec<(K::Real, K::Real)> = Vec::new();
    for i in half..frames.len()
        invariant
            half == frames@.len() as int / 2,
            are_settled(*k, frames@, half as int, i as int, points@),
    {
        let ghost before = points@;
        match frames[i].front_x {
            None => {},
            Some(x) => {
                if k.is_finite(x) {
                    points.push((frames[i].time, x));
                    proof {
                        assert(points@.drop_last() =~= before);
                    }
                }
            },
        }
        proof {
            assert(are_settled(*k, frames@, half as int, i + 1, points@));
        }
    }
    points
}

/// `mean` is the mean of some values.
pub open spec fn is_mean<K: LsdCase>(
    k: K,
    hydro: K::Hydro,
    values: Seq<K::Real>,
    mean: K::Real,
) -> bool {
    exists|n: K::Real, sum: K::Real|
        {
            &&& #[trigger] call_ensures(K::members, (&k, values.len() as usize), n)
            &&& #[trigger] is_sum(hydro, values, sum)
            &&& call_ensures(K::ratio, (&k, sum, n), mean)
        }
}

/// `q` is the product of two distances from two means.
pub open spec fn is_deviation<K: LsdCase>(
    k: K,
    a: K::Real,
    mean_a: K::Real,
    b: K::Real,
    mean_b: K::Real,
    q: K::Real,
) -> bool {
    exists|da: K::Real, db: K::Real|
        {
            &&& #[trigger] call_ensures(K::minus, (&k, a, mean_a), da)
            &&& #[trigger] call_ensures(K::minus, (&k, b, mean_b), db)
            &&& call_ensures(K::times, (&k, da, db), q)
        }
}

/// `products` are those of the distances of two lines from their means.
pub open spec fn are_deviations<K: LsdCase>(
    k: K,
    a: Seq<K::Real>,
    mean_a: K::Real,
    b: Seq<K::Real>,
    mean_b: K::Real,
    products: Seq<K::Real>,
) -> bool {
    &&& products.len() == a.len() == b.len()
    &&& forall|i: int|
        0 <= i < products.len() ==> is_deviation(
            k,
            a[i],
            mean_a,
            b[i],
            mean_b,
            #[trigger] products[i],
        )
}

/// `c` is the sum of the products of the distances of two lines from their
/// means.
pub open spec fn is_covariance<K: LsdCase>(
    k: K,
    hydro: K::Hydro,
    a: Seq<K::Real>,
    mean_a: K::Real,
    b: Seq<K::Real>,
    mean_b: K::Real,
    c: K::Real,
) -> bool {
    exists|products: Seq<K::Real>| #[trigger]
        are_deviations(k, a, mean_a, b, mean_b, products) && is_sum(hydro, products, c)
}

/// The least-squares slope of positions over times, towards the laser.
pub open spec fn is_fit<K: LsdCase>(
    k: K,
    hydro: K::Hydro,
    times: Seq<K::Real>,
    places: Seq<K::Real>,
    d: K::Real,
) -> bool {
    exists|mean_t: K::Real, mean_x: K::Real, cov: K::Real, var: K::Real, down: K::Real|
        {
            &&& #[trigger] is_mean(k, hydro, times, mean_t)
            &&& #[trigger] is_mean(k, hydro, places, mean_x)
            &&& #[trigger] is_covariance(k, hydro, times, mean_t, places, mean_x, cov)
            &&& #[trigger] is_covariance(k, hydro, times, mean_t, times, mean_t, var)
            &&& #[trigger] call_ensures(K::negate, (&k, cov), down)
            &&& call_ensures(K::ratio, (&k, down, var), d)
        }
}

/// The speed of a front through some points; nothing with fewer than two.
pub open spec fn is_front_speed<K: LsdCase>(
    k: K,
    hydro: K::Hydro,
    points: Seq<(K::Real, K::Real)>,
    r: Option<K::Real>,
) -> bool {
    match r {
        None => points.len() < 2,
        Some(d) => points.len() >= 2 && is_fit(
            k,
            hydro,
            points.map_values(|q: (K::Real, K::Real)| q.0),
            points.map_values(|q: (K::Real, K::Real)| q.1),
            d,
        ),
    }
}

fn mean_of<K: LsdCase>(k: &K, hydro: &K::Hydro, values: &[K::Real]) -> (mean: K::Real)
    ensures
        is_mean(*k, *hydro, values@, mean),
{
    let sum: K::Real = sum_of(hydro, values);
    let n: K::Real = k.members(values.len());
    proof {
        assert(is_sum(*hydro, values@, sum));
    }
    k.ratio(sum, n)
}

fn deviation<K: LsdCase>(k: &K, a: K::Real, mean_a: K::Real, b: K::Real, mean_b: K::Real) -> (q:
    K::Real)
    ensures
        is_deviation(*k, a, mean_a, b, mean_b, q),
{
    let da: K::Real = k.minus(a, mean_a);
    let db: K::Real = k.minus(b, mean_b);
    k.times(da, db)
}

fn covariance_of<K: LsdCase>(
    k: &K,
    hydro: &K::Hydro,
    a: &[K::Real],
    mean_a: K::Real,
    b: &[K::Real],
    mean_b: K::Real,
) -> (c: K::Real)
    requires
        a@.len() == b@.len(),
    ensures
        is_covariance(*k, *hydro, a@, mean_a, b@, mean_b, c),
{
    let mut products: Vec<K::Real> = Vec::with_capacity(a.len());
    for i in 0..a.len()
        invariant
            a@.len() == b@.len(),
            products@.len() == i,
            forall|l: int|
                0 <= l < i ==> is_deviation(
                    *k,
                    a@[l],
                    mean_a,
                    b@[l],
                    mean_b,
                    #[trigger] products@[l],
                ),
    {
        products.push(deviation(k, a[i], mean_a, b[i], mean_b));
    }
    proof {
        assert(are_deviations(*k, a@, mean_a, b@, mean_b, products@));
    }
    sum_of(hydro, products.as_slice())
}

/// The speed of a front through some points.
pub fn front_speed<K: LsdCase>(k: &K, hydro: &K::Hydro, points: &[(K::Real, K::Real)]) -> (r: Option<
    K::Real,
>)
    ensures
        is_front_speed(*k, *hydro, points@, r),
{
    if points.len() < 2 {
        return None;
    }
    let mut times: Vec<K::Real> = Vec::with_capacity(points.len());
    let mut places: Vec<K::Real> = Vec::with_capacity(points.len());
    for i in 0..points.len()
        invariant
            times@.len() == i,
            places@.len() == i,
            forall|l: int| 0 <= l < i ==> #[trigger] times@[l] == points@[l].0,
            forall|l: int| 0 <= l < i ==> #[trigger] places@[l] == points@[l].1,
    {
        times.push(points[i].0);
        places.push(points[i].1);
    }
    proof {
        assert(times@ =~= points@.map_values(|q: (K::Real, K::Real)| q.0));
        assert(places@ =~= points@.map_values(|q: (K::Real, K::Real)| q.1));
    }
    let mean_t: K::Real = mean_of(k, hydro, times.as_slice());
    let mean_x: K::Real = mean_of(k, hydro, places.as_slice());
    let cov: K::Real = covariance_of(
        k,
        hydro,
        times.as_slice(),
        mean_t,
        places.as_slice(),
        mean_x,
    );
    let var: K::Real = covariance_of(
        k,
        hydro,
        times.as_slice(),
        mean_t,
        times.as_slice(),
        mean_t,
    );
    let down: K::Real = k.negate(cov);
    let d: K::Real = k.ratio(down, var);
    proof {
        assert(is_fit(*k, *hydro, times@, places@, d));
    }
    Some(d)
}

/// `after` is the state of higher pressure, the earlier one on a tie.
pub open spec fn is_higher<H: Beam1d>(
    hydro: H,
    before: Primitive<H::Real>,
    w: Primitive<H::Real>,
    after: Primitive<H::Real>,
) -> bool {
    ||| call_ensures(H::exceeds, (&hydro, w.p, before.p), true) && after == w
    ||| call_ensures(H::exceeds, (&hydro, w.p, before.p), false) && after == before
}

/// `run[i]` is the state of highest pressure among `start` and the first `i`.
pub open spec fn is_peak_run<H: Beam1d>(
    hydro: H,
    start: Primitive<H::Real>,
    states: Seq<Primitive<H::Real>>,
    run: Seq<Primitive<H::Real>>,
) -> bool {
    &&& 0 < run.len() <= states.len() + 1
    &&& run[0] == start
    &&& forall|i: int| 0 <= i < run.len() - 1 ==> #[trigger] is_peak_leg(hydro, states, run, i)
}

pub open spec fn is_peak_leg<H: Beam1d>(
    hydro: H,
    states: Seq<Primitive<H::Real>>,
    run: Seq<Primitive<H::Real>>,
    i: int,
) -> bool {
    is_higher(hydro, run[i], states[i], run[i + 1])
}

/// `peak` is the state of highest pressure among `start` and some states.
pub open spec fn is_peak_state<H: Beam1d>(
    hydro: H,
    start: Primitive<H::Real>,
    states: Seq<Primitive<H::Real>>,
    peak: Primitive<H::Real>,
) -> bool {
    exists|run: Seq<Primitive<H::Real>>| #[trigger]
        is_peak_run(hydro, start, states, run) && run.len() == states.len() + 1 && run.last()
            == peak
}

/// The state of highest pressure among `start` and some states.
pub fn peak_state<H: Beam1d>(hydro: &H, start: Primitive<H::Real>, states: &[Primitive<H::Real>]) -> (peak:
    Primitive<H::Real>)
    ensures
        is_peak_state(*hydro, start, states@, peak),
{
    let mut peak: Primitive<H::Real> = start;
    let ghost mut run: Seq<Primitive<H::Real>> = seq![start];
    for i in 0..states.len()
        invariant
            run.len() == i + 1,
            run.last() == peak,
            is_peak_run(*hydro, start, states@, run),
    {
        let w: Primitive<H::Real> = states[i];
        let next: Primitive<H::Real> = if hydro.exceeds(w.p, peak.p) {
            w
        } else {
            peak
        };
        proof {
            assert(is_higher(*hydro, peak, w, next));
            let r2 = run.push(next);
            assert forall|l: int| 0 <= l < r2.len() - 1 implies #[trigger] is_peak_leg(
                *hydro,
                states@,
                r2,
                l,
            ) by {
                if l < i {
                    assert(is_peak_leg(*hydro, states@, run, l));
                }
            }
            run = r2;
        }
        peak = next;
    }
    peak
}

/// The closure that is reported but not driven by.
pub open spec fn closure<K: LsdCase>(
    wavelength: K::Real,
    gaunt: K::Real,
    table: PlasmaTable<K::Real>,
) -> Absorption<K::Real> {
    Absorption::InverseBremsstrahlung {
        wavelength,
        gaunt,
        table,
        ceiling: IonizationCeiling::Flag,
    }
}

/// What the closure gives for a state; nothing where it fails or there is no
/// table.
pub open spec fn is_closure_at<K: LsdCase>(
    k: K,
    hydro: K::Hydro,
    wavelength: K::Real,
    w: Primitive<K::Real>,
    r: Option<K::Real>,
) -> bool {
    exists|found: Option<PlasmaTable<K::Real>>, gaunt: K::Real|
        {
            &&& #[trigger] call_ensures(K::table, (&k,), found)
            &&& #[trigger] call_ensures(K::gaunt, (&k,), gaunt)
            &&& match found {
                None => r is None,
                Some(table) => match r {
                    Some(a) => is_coefficient(hydro, closure::<K>(wavelength, gaunt, table), w, a),
                    None => exists|e: LsdError<K::Real>|
                     #[trigger]
                        is_absorption(hydro, closure::<K>(wavelength, gaunt, table), w, Err(e)),
                },
            }
        }
}

/// What the closure gives for a state.
pub fn closure_at<K: LsdCase>(
    k: &K,
    hydro: &K::Hydro,
    wavelength: K::Real,
    w: Primitive<K::Real>,
) -> (r: Option<K::Real>)
    ensures
        is_closure_at(*k, *hydro, wavelength, w, r),
{
    let gaunt: K::Real = k.gaunt();
    let found: Option<PlasmaTable<K::Real>> = k.table();
    let ghost found_table = found;
    proof {
        assert(call_ensures(K::table, (k,), found_table));
        assert(call_ensures(K::gaunt, (k,), gaunt));
    }
    match found {
        None => None,
        Some(table) => {
            let ghost t = table;
            let absorption: Absorption<K::Real> =
                Absorption::InverseBremsstrahlung {
                wavelength,
                gaunt,
                table,
                ceiling: IonizationCeiling::Flag,
            };
            proof {
                assert(absorption == closure::<K>(wavelength, gaunt, t));
            }
            match absorption.coefficient(hydro, w) {
                Ok(a) => Some(a),
                Err(e) => {
                    proof {
                        assert(is_absorption(
                            *hydro,
                            closure::<K>(wavelength, gaunt, t),
                            w,
                            Err(e),
                        ));
                    }
                    None
                },
            }
        },
    }
}

/// What a wave starts from.
pub struct WaveStart<K: LsdCase> {
    pub hydro: K::Hydro,
    pub ambient: Primitive<K::Real>,
    pub e_ignite: K::Real,
    pub seed: SeededIgnition<K::Real>,
    pub t_end: K::Real,
}

pub open spec fn is_wave_start<K: LsdCase>(
    k: K,
    p: LsdParams<K::Real>,
    rho_0: K::Real,
    speed: K::Real,
    s: WaveStart<K>,
) -> bool {
    &&& call_ensures(K::hydro, (&k, p.length, p.cells), s.hydro)
    &&& call_ensures(K::ambient, (&k, rho_0, p.p0), s.ambient)
    &&& call_ensures(K::ignition_energy, (&k, rho_0, p.p0), s.e_ignite)
    &&& call_ensures(K::hot_spot, (&k, p.length, rho_0, speed), s.seed)
    &&& call_ensures(K::duration, (&k, p.cross_fraction, p.length, speed), s.t_end)
}

/// What building the column of a wave may return.
pub open spec fn is_wave_column<K: LsdCase>(
    p: LsdParams<K::Real>,
    s: WaveStart<K>,
    r: Result<LsdColumn<K::Hydro>, LsdError<K::Real>>,
) -> bool {
    exists|
        states: Seq<Primitive<K::Real>>,
        built: Result<Euler1d<K::Hydro>, EulerError>,
    | #[trigger]
        is_seeded(
            s.hydro,
            p.cells,
            s.ambient,
            s.seed,
            Absorption::GreyThreshold { alpha: p.alpha, e_ignite: s.e_ignite },
            p.drive,
            states,
            built,
            r,
        )
}

/// The relative gap in the energy budget of a column.
pub open spec fn is_residual<H: Beam1d>(c: Column1d<H>, gap: H::Real) -> bool {
    exists|energy: H::Real|
        {
            &&& #[trigger] crate::euler1d::is_integral(
                c.hydro,
                crate::euler1d::energies(),
                energy,
            )
            &&& call_ensures(
                H::budget_gap,
                (&c.hydro.scheme, energy, c.initial_energy, c.deposited),
                gap,
            )
        }
}

/// An absorption over the whole column, where there is one.
pub open spec fn is_depth_of<K: LsdCase>(
    k: K,
    p: LsdParams<K::Real>,
    alpha: Option<K::Real>,
    depth: Option<K::Real>,
) -> bool {
    match alpha {
        None => depth is None,
        Some(a) => depth matches Some(d) && call_ensures(K::times, (&k, a, p.length), d),
    }
}

/// The speed that a wave reports is that of the fronts of its later half.
pub open spec fn is_speed_reported<K: LsdCase>(
    k: K,
    hydro: K::Hydro,
    frames: Seq<LsdFrame<K::Real>>,
    d: Option<K::Real>,
) -> bool {
    exists|points: Seq<(K::Real, K::Real)>| #[trigger]
        are_settled(k, frames, frames.len() as int / 2, frames.len() as int, points)
            && is_front_speed(k, hydro, points, d)
}

/// The closure that a wave reports is that of the column's peak state.
pub open spec fn is_closure_reported<K: LsdCase>(
    k: K,
    c: Column1d<K::Hydro>,
    start: Primitive<K::Real>,
    wavelength: K::Real,
    r: Option<K::Real>,
) -> bool {
    exists|
        states: Seq<Primitive<K::Real>>,
        peak: Primitive<K::Real>,
    |
        {
            &&& are_states(c, states)
            &&& #[trigger] is_peak_state(c.hydro.scheme, start, states, peak)
            &&& is_closure_at(k, c.hydro.scheme, wavelength, peak, r)
        }
}

/// What a wave reports of its frames and of the column that they leave.
pub open spec fn is_wave_of<K: LsdCase>(
    k: K,
    p: LsdParams<K::Real>,
    ambient: Primitive<K::Real>,
    c: Column1d<K::Hydro>,
    wave: Wave<K::Real>,
) -> bool {
    &&& is_speed_reported(k, c.hydro.scheme, wave.frames@, wave.d_measured)
    &&& wave.x@.len() == p.cells
    &&& forall|i: int|
        0 <= i < p.cells ==> call_ensures(
            K::cell_centre,
            (&k, i as usize, p.length, p.cells),
            #[trigger] wave.x@[i],
        )
    &&& wave.deposited_energy == c.deposited
    &&& is_residual(c, wave.energy_residual)
    &&& is_undisturbed(c, wave.boundaries_undisturbed)
    &&& is_closure_reported(k, c, ambient, p.wavelength, wave.ib_alpha)
    &&& is_depth_of(k, p, wave.ib_alpha, wave.ib_optical_depth)
    &&& exists|co2: K::Real| #[trigger]
        call_ensures(K::co2_wavelength, (&k,), co2) && is_closure_reported(
            k,
            c,
            ambient,
            co2,
            wave.ib_alpha_co2,
        )
    &&& is_depth_of(k, p, wave.ib_alpha_co2, wave.ib_optical_depth_co2)
}

/// The wave of a column.
pub open spec fn is_wave_run<K: LsdCase>(
    k: K,
    p: LsdParams<K::Real>,
    s: WaveStart<K>,
    column: LsdColumn<K::Hydro>,
    post: Column1d<K::Hydro>,
    r: Result<Wave<K::Real>, LsdCaseError<K::Real>>,
) -> bool {
    &&& is_wave_column(p, s, Ok(column))
    &&& match r {
        Ok(wave) => {
            &&& is_recording(k, p, s.t_end, column@, post, Ok(wave.frames@))
            &&& is_wave_of(k, p, s.ambient, post, wave)
        },
        Err(e) => is_recording(k, p, s.t_end, column@, post, Err(e)),
    }
}

/// What the wave of a lit gas may come to.
pub open spec fn is_wave<K: LsdCase>(
    k: K,
    p: LsdParams<K::Real>,
    rho_0: K::Real,
    speed: K::Real,
    r: Result<Wave<K::Real>, LsdCaseError<K::Real>>,
) -> bool {
    exists|s: WaveStart<K>| #[trigger]
        is_wave_start(k, p, rho_0, speed, s) && {
            ||| r matches Err(LsdCaseError::Column(e)) && is_wave_column(p, s, Err(e))
            ||| exists|column: LsdColumn<K::Hydro>, post: Column1d<K::Hydro>| #[trigger]
                is_wave_run(k, p, s, column, post, r)
        }
}

fn depth_of<K: LsdCase>(k: &K, p: &LsdParams<K::Real>, alpha: Option<K::Real>) -> (depth: Option<
    K::Real,
>)
    ensures
        is_depth_of(*k, *p, alpha, depth),
{
    match alpha {
        None => None,
        Some(a) => Some(k.times(a, p.length)),
    }
}

fn cell_centres<K: LsdCase>(k: &K, p: &LsdParams<K::Real>) -> (x: Vec<K::Real>)
    ensures
        x@.len() == p.cells,
        forall|i: int|
            0 <= i < p.cells ==> call_ensures(
                K::cell_centre,
                (k, i as usize, p.length, p.cells),
                #[trigger] x@[i],
            ),
{
    let n: usize = p.cells;
    let mut x: Vec<K::Real> = Vec::with_capacity(n);
    for i in 0..n
        invariant
            n == p.cells,
            x@.len() == i,
            forall|l: int|
                0 <= l < i ==> call_ensures(
                    K::cell_centre,
                    (k, l as usize, p.length, p.cells),
                    #[trigger] x@[l],
                ),
    {
        x.push(k.cell_centre(i, p.length, p.cells));
    }
    x
}

/// What a wave reports of its frames and of the column that they leave.
fn report_wave<K: LsdCase>(
    k: &K,
    p: &LsdParams<K::Real>,
    ambient: Primitive<K::Real>,
    column: &LsdColumn<K::Hydro>,
    frames: Vec<LsdFrame<K::Real>>,
) -> (wave: Wave<K::Real>)
    requires
        column.wf(),
    ensures
        wave.frames@ == frames@,
        is_wave_of(*k, *p, ambient, column@, wave),
{
    let hydro: &K::Hydro = column.hydro().scheme();
    let points: Vec<(K::Real, K::Real)> = settled_half(k, frames.as_slice());
    let d_measured: Option<K::Real> = front_speed(k, hydro, points.as_slice());
    let states: Vec<Primitive<K::Real>> = column.hydro().primitives();
    let peak: Primitive<K::Real> = peak_state(hydro, ambient, states.as_slice());
    let co2: K::Real = k.co2_wavelength();
    let ib_alpha: Option<K::Real> = closure_at(k, hydro, p.wavelength, peak);
    let ib_alpha_co2: Option<K::Real> = closure_at(k, hydro, co2, peak);
    proof {
        assert(are_states(column@, states@));
        assert(is_peak_state(*hydro, ambient, states@, peak));
        assert(is_closure_reported(*k, column@, ambient, p.wavelength, ib_alpha));
        assert(is_closure_reported(*k, column@, ambient, co2, ib_alpha_co2));
        assert(call_ensures(K::co2_wavelength, (k,), co2));
        assert(is_speed_reported(*k, *hydro, frames@, d_measured));
    }
    let energy_residual: K::Real = column.energy_residual();
    proof {
        assert(is_residual(column@, energy_residual));
    }
    Wave {
        d_measured,
        x: cell_centres(k, p),
        frames,
        deposited_energy: column.deposited_energy(),
        energy_residual,
        boundaries_undisturbed: column.boundaries_undisturbed(),
        ib_alpha,
        ib_optical_depth: depth_of(k, p, ib_alpha),
        ib_alpha_co2,
        ib_optical_depth_co2: depth_of(k, p, ib_alpha_co2),
    }
}

/// Run the wave of a lit gas.
pub fn run_wave<K: LsdCase>(k: &K, p: &LsdParams<K::Real>, rho_0: K::Real, speed: K::Real) -> (r:
    Result<Wave<K::Real>, LsdCaseError<K::Real>>)
    requires
        p.cells + 2 * N_GHOST <= isize::MAX,
    ensures
        is_wave(*k, *p, rho_0, speed, r),
{
    let ambient: Primitive<K::Real> = k.ambient(rho_0, p.p0);
    let e_ignite: K::Real = k.ignition_energy(rho_0, p.p0);
    let seed: SeededIgnition<K::Real> = k.hot_spot(p.length, rho_0, speed);
    let t_end: K::Real = k.duration(p.cross_fraction, p.length, speed);
    let hydro: K::Hydro = k.hydro(p.length, p.cells);
    let ghost start = WaveStart::<K> { hydro, ambient, e_ignite, seed, t_end };
    proof {
        assert(is_wave_start(*k, *p, rho_0, speed, start));
    }
    let mut column: LsdColumn<K::Hydro> = match LsdColumn::seeded(
        hydro,
        p.cells,
        ambient,
        seed,
        Absorption::GreyThreshold { alpha: p.alpha, e_ignite },
        p.drive,
    ) {
        Ok(c) => c,
        Err(e) => {
            proof {
                assert(is_wave_column(*p, start, Err(e)));
            }
            return Err(LsdCaseError::Column(e));
        },
    };
    let ghost built = column;
    proof {
        assert(is_wave_column(*p, start, Ok(built)));
    }
    match take_frames(k, p, t_end, &mut column) {
        Err(e) => {
            proof {
                assert(is_wave_run(*k, *p, start, built, column@, Err(e)));
            }
            Err(e)
        },
        Ok(frames) => {
            let wave: Wave<K::Real> = report_wave(k, p, ambient, &column, frames);
            proof {
                assert(is_wave_run(*k, *p, start, built, column@, Ok(wave)));
            }
            Ok(wave)
        },
    }
}

/// The column is long enough and has enough cells.
pub open spec fn is_column_judged<K: LsdCase>(k: K, p: LsdParams<K::Real>, good: bool) -> bool {
    if good {
        call_ensures(K::is_positive, (&k, p.length), true) && p.cells >= MIN_CELLS
    } else {
        call_ensures(K::is_positive, (&k, p.length), false) || p.cells < MIN_CELLS
    }
}

/// The front stays within the column.
pub open spec fn is_cross_judged<K: LsdCase>(k: K, p: LsdParams<K::Real>, good: bool) -> bool {
    if good {
        &&& call_ensures(K::is_positive, (&k, p.cross_fraction), true)
        &&& is_cross_short(k, p, true)
    } else {
        ||| call_ensures(K::is_positive, (&k, p.cross_fraction), false)
        ||| is_cross_short(k, p, false)
    }
}

/// Whether the fraction to cross is below that of the focus.
pub open spec fn is_cross_short<K: LsdCase>(k: K, p: LsdParams<K::Real>, short: bool) -> bool {
    exists|focus: K::Real| #[trigger]
        call_ensures(K::focus_fraction, (&k,), focus) && call_ensures(
            K::exceeds,
            (&k, focus, p.cross_fraction),
            short,
        )
}

/// The ambient state is one.
pub open spec fn is_ambient_judged<K: LsdCase>(k: K, p: LsdParams<K::Real>, good: bool) -> bool {
    if good {
        &&& call_ensures(K::is_positive, (&k, p.t0), true)
        &&& call_ensures(K::is_positive, (&k, p.p0), true)
    } else {
        ||| call_ensures(K::is_positive, (&k, p.t0), false)
        ||| call_ensures(K::is_positive, (&k, p.p0), false)
    }
}

/// Every check of a run's parameters is passed.
pub open spec fn is_admitted<K: LsdCase>(k: K, p: LsdParams<K::Real>) -> bool {
    &&& is_column_judged(k, p, true)
    &&& p.frames >= 2
    &&& is_cross_judged(k, p, true)
    &&& call_ensures(K::is_valid, (&k, p.drive), true)
    &&& is_ambient_judged(k, p, true)
}

/// The checks of a run's parameters, the first that fails given back.
pub open spec fn is_admission<K: LsdCase>(
    k: K,
    p: LsdParams<K::Real>,
    r: Result<(), LsdCaseError<K::Real>>,
) -> bool {
    let sized = is_column_judged(k, p, true);
    let framed = sized && p.frames >= 2;
    let crossed = framed && is_cross_judged(k, p, true);
    let driven = crossed && call_ensures(K::is_valid, (&k, p.drive), true);
    match r {
        Ok(_) => is_admitted(k, p),
        Err(LsdCaseError::BadColumn) => is_column_judged(k, p, false),
        Err(LsdCaseError::TooFewFrames) => sized && p.frames < 2,
        Err(LsdCaseError::BadCross) => framed && is_cross_judged(k, p, false),
        Err(LsdCaseError::BadDrive) => {
            crossed && call_ensures(K::is_valid, (&k, p.drive), false)
        },
        Err(LsdCaseError::BadAmbient) => driven && is_ambient_judged(k, p, false),
        Err(_) => false,
    }
}

/// Check a run's parameters.
pub fn check_params<K: LsdCase>(k: &K, p: &LsdParams<K::Real>) -> (r: Result<
    (),
    LsdCaseError<K::Real>,
>)
    ensures
        is_admission(*k, *p, r),
{
    if !(k.is_positive(p.length) && p.cells >= MIN_CELLS) {
        return Err(LsdCaseError::BadColumn);
    }
    if p.frames < 2 {
        return Err(LsdCaseError::TooFewFrames);
    }
    if !k.is_positive(p.cross_fraction) {
        return Err(LsdCaseError::BadCross);
    }
    let focus: K::Real = k.focus_fraction();
    let short: bool = k.exceeds(focus, p.cross_fraction);
    proof {
        assert(is_cross_short(*k, *p, short));
    }
    if !short {
        return Err(LsdCaseError::BadCross);
    }
    if !k.is_valid(p.drive) {
        return Err(LsdCaseError::BadDrive);
    }
    if !(k.is_positive(p.t0) && k.is_positive(p.p0)) {
        return Err(LsdCaseError::BadAmbient);
    }
    Ok(())
}

/// What an admitted run whose spark is lit or not may come to.
pub open spec fn is_run_of<K: LsdCase>(
    k: K,
    p: LsdParams<K::Real>,
    spark: Spark<K::Real>,
    rho_0: K::Real,
    speed: K::Real,
    r: Result<LsdRun<K::Real>, LsdCaseError<K::Real>>,
) -> bool {
    &&& is_spark(k, p, Ok(spark))
    &&& call_ensures(K::ambient_density, (&k, p.p0, p.t0), rho_0)
    &&& call_ensures(K::wave_speed, (&k, p.drive, rho_0), speed)
    &&& match r {
        Ok(run) => {
            &&& run.spark == spark
            &&& run.drive == p.drive
            &&& run.rho_0 == rho_0
            &&& run.d_raizer == speed
            &&& match run.wave {
                None => !spark.ignited,
                Some(wave) => spark.ignited && is_wave(k, p, rho_0, speed, Ok(wave)),
            }
        },
        Err(e) => spark.ignited && is_wave(k, p, rho_0, speed, Err(e)),
    }
}

/// What [`run_lsd`] may return: the checks in order, then the spark, then the
/// wave.
pub open spec fn is_lsd_run<K: LsdCase>(
    k: K,
    p: LsdParams<K::Real>,
    r: Result<LsdRun<K::Real>, LsdCaseError<K::Real>>,
) -> bool {
    ||| r matches Err(e) && is_admission(k, p, Err(e))
    ||| is_admitted(k, p) && (r matches Err(e) && is_spark(k, p, Err(e)))
    ||| is_admitted(k, p) && exists|spark: Spark<K::Real>, rho_0: K::Real, speed: K::Real|
     #[trigger]
        is_run_of(k, p, spark, rho_0, speed, r)
}

/// Light a spark, and run the wave that the sustaining beam then drives.
pub fn run_lsd<K: LsdCase>(k: &K, p: &LsdParams<K::Real>) -> (r: Result<
    LsdRun<K::Real>,
    LsdCaseError<K::Real>,
>)
    requires
        p.cells + 2 * N_GHOST <= isize::MAX,
    ensures
        is_lsd_run(*k, *p, r),
{
    match check_params(k, p) {
        Ok(_) => {},
        Err(e) => {
            return Err(e);
        },
    }
    let spark: Spark<K::Real> = match light_spark(k, p) {
        Ok(spark) => spark,
        Err(e) => {
            return Err(e);
        },
    };
    let rho_0: K::Real = k.ambient_density(p.p0, p.t0);
    let d_raizer: K::Real = k.wave_speed(p.drive, rho_0);
    if !spark.ignited {
        let run: LsdRun<K::Real> = LsdRun { spark, drive: p.drive, rho_0, d_raizer, wave: None };
        proof {
            assert(is_run_of(*k, *p, spark, rho_0, d_raizer, Ok(run)));
        }
        return Ok(run);
    }
    match run_wave(k, p, rho_0, d_raizer) {
        Err(e) => {
            proof {
                assert(is_run_of(*k, *p, spark, rho_0, d_raizer, Err(e)));
            }
            Err(e)
        },
        Ok(wave) => {
            let run: LsdRun<K::Real> = LsdRun {
                spark,
                drive: p.drive,
                rho_0,
                d_raizer,
                wave: Some(wave),
            };
            proof {
                assert(is_run_of(*k, *p, spark, rho_0, d_raizer, Ok(run)));
            }
            Ok(run)
        },
    }
}

/// Two runs that differ in nothing but the pulse that lights the gas.
pub open spec fn is_lit_otherwise<R>(p: LsdParams<R>, q: LsdParams<R>) -> bool {
    q == (LsdParams { ignite_power: q.ignite_power, w_focus: q.w_focus, ..p })
}

proof fn lemma_frame_is_blind<K: LsdCase>(
    k: K,
    p: LsdParams<K::Real>,
    q: LsdParams<K::Real>,
    t_end: K::Real,
    i: int,
    pre: Column1d<K::Hydro>,
    post: Column1d<K::Hydro>,
    r: Result<LsdFrame<K::Real>, LsdCaseError<K::Real>>,
)
    requires
        is_lit_otherwise(p, q),
        is_frame(k, p, t_end, i, pre, post, r),
    ensures
        is_frame(k, q, t_end, i, pre, post, r),
{
    match r {
        Ok(f) => {
            let looks = choose|looks: Looks<K::Hydro>| #[trigger]
                is_frame_taken(k, p, t_end, i, pre, looks, post, f);
            assert(is_frame_taken(k, q, t_end, i, pre, looks, post, f));
        },
        Err(e) => {
            let looks = choose|looks: Looks<K::Hydro>| #[trigger]
                is_frame_refused(k, p, t_end, i, pre, looks, post, e);
            assert(is_frame_refused(k, q, t_end, i, pre, looks, post, e));
        },
    }
}

proof fn lemma_frames_are_blind<K: LsdCase>(
    k: K,
    p: LsdParams<K::Real>,
    q: LsdParams<K::Real>,
    t_end: K::Real,
    columns: Seq<Column1d<K::Hydro>>,
    frames: Seq<LsdFrame<K::Real>>,
)
    requires
        is_lit_otherwise(p, q),
        are_frames(k, p, t_end, columns, frames),
    ensures
        are_frames(k, q, t_end, columns, frames),
{
    assert forall|i: int| 0 <= i < frames.len() implies #[trigger] is_frame_leg(
        k,
        q,
        t_end,
        columns,
        frames,
        i,
    ) by {
        assert(is_frame_leg(k, p, t_end, columns, frames, i));
        lemma_frame_is_blind(k, p, q, t_end, i, columns[i], columns[i + 1], Ok(frames[i]));
    }
}

proof fn lemma_recording_is_blind<K: LsdCase>(
    k: K,
    p: LsdParams<K::Real>,
    q: LsdParams<K::Real>,
    t_end: K::Real,
    pre: Column1d<K::Hydro>,
    post: Column1d<K::Hydro>,
    r: Result<Seq<LsdFrame<K::Real>>, LsdCaseError<K::Real>>,
)
    requires
        is_lit_otherwise(p, q),
        is_recording(k, p, t_end, pre, post, r),
    ensures
        is_recording(k, q, t_end, pre, post, r),
{
    match r {
        Ok(frames) => {
            let columns = choose|columns: Seq<Column1d<K::Hydro>>| #[trigger]
                are_frames(k, p, t_end, columns, frames) && columns[0] == pre && columns.last()
                    == post;
            lemma_frames_are_blind(k, p, q, t_end, columns, frames);
        },
        Err(e) => {
            let (columns, frames) = choose|
                columns: Seq<Column1d<K::Hydro>>,
                frames: Seq<LsdFrame<K::Real>>,
            | #[trigger]
                is_frames_cut(k, p, t_end, columns, frames, post, e) && columns[0] == pre;
            lemma_frames_are_blind(k, p, q, t_end, columns, frames);
            lemma_frame_is_blind(
                k,
                p,
                q,
                t_end,
                frames.len() as int,
                columns.last(),
                post,
                Err(e),
            );
            assert(is_frames_cut(k, q, t_end, columns, frames, post, e));
        },
    }
}

proof fn lemma_wave_column_is_blind<K: LsdCase>(
    p: LsdParams<K::Real>,
    q: LsdParams<K::Real>,
    s: WaveStart<K>,
    r: Result<LsdColumn<K::Hydro>, LsdError<K::Real>>,
)
    requires
        is_lit_otherwise(p, q),
        is_wave_column(p, s, r),
    ensures
        is_wave_column(q, s, r),
{
    let absorption = Absorption::GreyThreshold { alpha: p.alpha, e_ignite: s.e_ignite };
    let (states, built) = choose|
        states: Seq<Primitive<K::Real>>,
        built: Result<Euler1d<K::Hydro>, EulerError>,
    | #[trigger]
        is_seeded(s.hydro, p.cells, s.ambient, s.seed, absorption, p.drive, states, built, r);
    assert(q.alpha == p.alpha && q.cells == p.cells && q.drive == p.drive);
    assert(is_seeded(
        s.hydro,
        q.cells,
        s.ambient,
        s.seed,
        Absorption::GreyThreshold { alpha: q.alpha, e_ignite: s.e_ignite },
        q.drive,
        states,
        built,
        r,
    ));
}

/// What the wave of a lit gas may come to does not depend on what lit it.
pub(crate) proof fn lemma_wave_forgets_the_pulse<K: LsdCase>(
    k: K,
    p: LsdParams<K::Real>,
    q: LsdParams<K::Real>,
    rho_0: K::Real,
    speed: K::Real,
    r: Result<Wave<K::Real>, LsdCaseError<K::Real>>,
)
    requires
        is_lit_otherwise(p, q),
        is_wave(k, p, rho_0, speed, r),
    ensures
        is_wave(k, q, rho_0, speed, r),
{
    let s = choose|s: WaveStart<K>| #[trigger]
        is_wave_start(k, p, rho_0, speed, s) && {
            ||| r matches Err(LsdCaseError::Column(e)) && is_wave_column(p, s, Err(e))
            ||| exists|column: LsdColumn<K::Hydro>, post: Column1d<K::Hydro>| #[trigger]
                is_wave_run(k, p, s, column, post, r)
        };
    assert(is_wave_start(k, q, rho_0, speed, s));
    let unbuilt = r matches Err(LsdCaseError::Column(e)) && is_wave_column(p, s, Err(e));
    if unbuilt {
        let e = r->Err_0->Column_0;
        lemma_wave_column_is_blind(p, q, s, Err(e));
    } else {
        let (column, post) = choose|column: LsdColumn<K::Hydro>, post: Column1d<K::Hydro>|
            #[trigger]
            is_wave_run(k, p, s, column, post, r);
        lemma_wave_column_is_blind(p, q, s, Ok(column));
        match r {
            Ok(wave) => {
                lemma_recording_is_blind(k, p, q, s.t_end, column@, post, Ok(wave.frames@));
                assert(is_wave_of(k, q, s.ambient, post, wave));
            },
            Err(e) => {
                lemma_recording_is_blind(k, p, q, s.t_end, column@, post, Err(e));
            },
        }
        assert(is_wave_run(k, q, s, column, post, r));
    }
}

proof fn lemma_frame_is_on_time<K: LsdCase>(
    k: K,
    p: LsdParams<K::Real>,
    t_end: K::Real,
    i: int,
    pre: Column1d<K::Hydro>,
    post: Column1d<K::Hydro>,
    f: LsdFrame<K::Real>,
    size: spec_fn(K::Real) -> real,
) -> (t: K::Real)
    requires
        is_frame(k, p, t_end, i, pre, post, Ok(f)),
        keeps_time(pre.hydro.scheme, size),
        forall|t: K::Real| #[trigger]
            call_ensures(K::frame_time, (&k, i as usize, t_end, p.frames), t) ==> size(
                pre.hydro.time,
            ) <= size(t),
    ensures
        call_ensures(K::frame_time, (&k, i as usize, t_end, p.frames), t),
        post.hydro.scheme == pre.hydro.scheme,
        f.time == post.hydro.time,
        size(f.time) == size(t),
{
    let looks = choose|looks: Looks<K::Hydro>| #[trigger]
        is_frame_taken(k, p, t_end, i, pre, looks, post, f);
    let t = choose|t: K::Real| #[trigger]
        call_ensures(K::frame_time, (&k, i as usize, t_end, p.frames), t) && is_advance_to(
            pre,
            t,
            looks.arrived,
            Ok(()),
        );
    law_march_ends_on_time(pre, t, looks.arrived, size);
    if i == 1 {
        lemma_regime_check_keeps_the_gas(looks.arrived, looks.judged);
    }
    assert(post.hydro == looks.judged.hydro);
    t
}

/// The times of the frames increase: each frame is taken when the column reaches
/// its time, and the times asked for increase.
pub proof fn law_frame_times_increase<K: LsdCase>(
    k: K,
    p: LsdParams<K::Real>,
    t_end: K::Real,
    columns: Seq<Column1d<K::Hydro>>,
    frames: Seq<LsdFrame<K::Real>>,
    size: spec_fn(K::Real) -> real,
    i: int,
)
    requires
        are_frames(k, p, t_end, columns, frames),
        frames.len() <= usize::MAX,
        keeps_time(columns[0].hydro.scheme, size),
        forall|t: K::Real| #[trigger]
            call_ensures(K::frame_time, (&k, 0, t_end, p.frames), t) ==> size(
                columns[0].hydro.time,
            ) <= size(t),
        forall|a: usize, b: usize, s: K::Real, t: K::Real| #[trigger]
            call_ensures(K::frame_time, (&k, a, t_end, p.frames), s) && #[trigger] call_ensures(
                K::frame_time,
                (&k, b, t_end, p.frames),
                t,
            ) && a < b < frames.len() ==> size(s) < size(t),
        0 <= i < frames.len(),
    ensures
        columns[i + 1].hydro.scheme == columns[0].hydro.scheme,
        columns[i + 1].hydro.time == frames[i].time,
        exists|t: K::Real| #[trigger]
            call_ensures(K::frame_time, (&k, i as usize, t_end, p.frames), t) && size(
                frames[i].time,
            ) == size(t),
        i > 0 ==> size(frames[i - 1].time) < size(frames[i].time),
    decreases i,
{
    assert(is_frame_leg(k, p, t_end, columns, frames, i));
    if i > 0 {
        law_frame_times_increase(k, p, t_end, columns, frames, size, i - 1);
    }
    let t = lemma_frame_is_on_time(
        k,
        p,
        t_end,
        i,
        columns[i],
        columns[i + 1],
        frames[i],
        size,
    );
}

} // verus!

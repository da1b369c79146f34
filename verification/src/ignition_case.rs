//! How often a beam that turbulence has degraded still lights the air at its
//! focus, and where the spot lands.
//!
//! The focal intensity is an integral over the pupil. There is no focal grid.
use crate::aperture::{
    is_aperture, is_focal_power, is_on, is_pupil_of, is_strehl, is_tilt_of_field, is_wander,
    Aperture, ApertureError, Disc, Pupil,
};
use crate::breakdown0d::{is_model, AirBreakdown, BreakdownError, Kinetics, Model};
use crate::breakdown_case::Setup;
use crate::cases::{
    gather, has_arrived, is_gathered, is_launch, is_mean, is_run_size, is_sent, mean_of, send,
    Arrival, Beam, Path, PathCase,
};
use crate::field::{is_power, Field, IntensityScale, ScaleError};
use crate::grid::Grid;
use crate::medium::{Medium, Vacuum};
use crate::montecarlo::seeded_ensemble;
use crate::optics::is_launchable;
use crate::propagate::PropagateError;
use vstd::prelude::*;

verus! {

/// An ensemble of beams and the air that they are to light.
#[derive(Debug, Clone, Copy)]
pub struct IgnitionParams<R> {
    pub n: usize,
    pub dx: R,
    pub wavelength: R,
    pub w0: R,
    pub z: R,
    /// Phase screens along the path.
    pub screens: usize,
    /// Refractive-index structure constant.
    pub cn2: R,
    /// Outer scale.
    pub l0: R,
    /// Pupil diameter.
    pub aperture: R,
    pub focal_length: R,
    /// Beam power.
    pub power: R,
    /// Pulse width at half maximum.
    pub fwhm: R,
    pub p0: R,
    /// Time steps of a pulse.
    pub ignition_steps: usize,
    pub realizations: usize,
    /// Master seed of the ensemble.
    pub seed: u64,
}

/// A member of the ensemble.
#[derive(Debug)]
pub struct Shot<R> {
    /// Focal intensity relative to vacuum.
    pub focal_ratio: R,
    pub strehl: R,
    /// Displacement of the focal spot.
    pub wander: (R, R),
    pub ignited: bool,
    /// What the edge absorbed of the launched power.
    pub guard_frac: R,
}

/// The result of an ensemble.
#[derive(Debug)]
pub struct IgnitionRun<R> {
    /// Fraction of the members that light the air.
    pub p_ignite: R,
    pub i_focus_vacuum: R,
    pub i_threshold: R,
    pub shots: Vec<Shot<R>>,
    pub wander_rms: R,
    pub guard_frac_mean: R,
}

/// Why an ensemble has no result.
#[derive(Debug, PartialEq)]
pub enum IgnitionError<R, E> {
    NoRealizations,
    Aperture(ApertureError<R>),
    Scale(ScaleError),
    /// The beam does not get through vacuum.
    Vacuum(PropagateError<()>),
    /// The beam has no focal intensity without turbulence.
    NoReference,
    Igniter(BreakdownError<R>),
    Threshold(BreakdownError<R>),
    Propagate(PropagateError<E>),
    Pupil(ApertureError<R>),
}

/// The formulas of an ensemble.
pub trait IgnitionCase: Pupil + PathCase {
    type Path: Path<Self>;

    type Kinetics: Kinetics<Real = Self::Real>;

    /// The path of a member.
    fn ignition_path(&self, p: IgnitionParams<Self::Real>, member: u64) -> Self::Path;

    fn kinetics(&self) -> Self::Kinetics;

    /// The gas and the focal region.
    fn setup(&self, wavelength: Self::Real) -> Setup<Self::Real>;

    /// What a squared pupil integral is divided by to be an intensity.
    fn focal_area(&self, wavelength: Self::Real, focal_length: Self::Real) -> Self::Real;

    /// Squared length of a displacement.
    fn square_length(&self, d: (Self::Real, Self::Real)) -> Self::Real;

    fn root(&self, x: Self::Real) -> Self::Real;
}

/// `i` is the focal intensity of a squared pupil integral.
pub open spec fn is_focal_intensity<K: IgnitionCase>(
    k: K,
    p: IgnitionParams<K::Real>,
    per_unit: K::Real,
    focal_power: K::Real,
    i: K::Real,
) -> bool {
    exists|area: K::Real, q: K::Real|
        {
            &&& #[trigger] call_ensures(K::focal_area, (&k, p.wavelength, p.focal_length), area)
            &&& #[trigger] call_ensures(K::ratio, (&k, focal_power, area), q)
            &&& call_ensures(K::times, (&k, per_unit, q), i)
        }
}

/// `i` is the focal intensity of a field.
pub open spec fn is_focus<K: IgnitionCase>(
    k: K,
    p: IgnitionParams<K::Real>,
    disc: Disc<K::Real>,
    per_unit: K::Real,
    field: Field<K::Real, K::Complex>,
    i: K::Real,
) -> bool {
    exists|samples: Seq<(usize, usize)>, focal_power: K::Real|
        {
            &&& is_pupil_of(k, disc, samples)
            &&& #[trigger] is_focal_power(k, field.u@, samples, focal_power)
            &&& is_focal_intensity(k, p, per_unit, focal_power, i)
        }
}

/// Focal intensity of a field.
fn focus_of<K: IgnitionCase>(
    k: &K,
    p: &IgnitionParams<K::Real>,
    pupil: &Aperture<K::Real>,
    scale: &IntensityScale<K::Real>,
    field: &Field<K::Real, K::Complex>,
) -> (i: K::Real)
    requires
        pupil@.valid(),
        is_on(pupil@, *field),
    ensures
        is_focus(*k, *p, pupil@, scale.spec_per_unit(), *field, i),
{
    let focal_power: K::Real = pupil.focal_power(k, field);
    let area: K::Real = k.focal_area(p.wavelength, p.focal_length);
    let q: K::Real = k.ratio(focal_power, area);
    let i: K::Real = scale.to_physical(k, q);
    proof {
        let samples = choose|samples: Seq<(usize, usize)>| #[trigger]
            is_pupil_of(*k, pupil@, samples) && is_focal_power(*k, field.u@, samples, focal_power);
        assert(is_focal_power(*k, field.u@, samples, focal_power));
        assert(call_ensures(K::ratio, (k, focal_power, area), q));
        assert(is_focal_intensity(*k, *p, scale.spec_per_unit(), focal_power, i));
    }
    i
}

/// Everything that the members of an ensemble share.
pub struct Bench<K: IgnitionCase> {
    pub disc: Disc<K::Real>,
    pub per_unit: K::Real,
    pub i_focus_vacuum: K::Real,
    pub igniter: Model<K::Kinetics>,
}

/// What the members share, from the parts that they are run with.
pub open spec fn shared<K: IgnitionCase>(
    pupil: &Aperture<K::Real>,
    scale: &IntensityScale<K::Real>,
    i_focus_vacuum: K::Real,
    igniter: &AirBreakdown<K::Kinetics>,
) -> Bench<K> {
    Bench {
        disc: pupil@,
        per_unit: scale.spec_per_unit(),
        i_focus_vacuum,
        igniter: igniter@,
    }
}

/// The beam of an ensemble.
pub open spec fn beam_of<R>(p: IgnitionParams<R>) -> Beam<R> {
    Beam { grid: Grid { n: p.n, dx: p.dx }, wavelength: p.wavelength, w0: p.w0 }
}

/// What an arrived beam is worth to an ensemble.
pub open spec fn is_judged<K: IgnitionCase>(
    k: K,
    p: IgnitionParams<K::Real>,
    bench: Bench<K>,
    a: Arrival<K::Real, K::Complex>,
    r: Result<Shot<K::Real>, ApertureError<K::Real>>,
) -> bool {
    match r {
        Ok(s) => {
            &&& is_lit(k, p, bench, a.field, s.focal_ratio, s.ignited)
            &&& is_strehl_found(k, bench.disc, a.field, Ok(s.strehl))
            &&& is_wander_found(k, p, bench.disc, a.field, Ok(s.wander))
            &&& call_ensures(K::ratio, (&k, a.absorbed, a.p_in), s.guard_frac)
        },
        Err(e) => {
            ||| is_strehl_found(k, bench.disc, a.field, Err(e))
            ||| has_strehl(k, bench.disc, a.field) && is_wander_found(
                k,
                p,
                bench.disc,
                a.field,
                Err(e),
            )
        },
    }
}

/// A field's focal intensity over that of vacuum, and whether it lights the air.
pub open spec fn is_lit<K: IgnitionCase>(
    k: K,
    p: IgnitionParams<K::Real>,
    bench: Bench<K>,
    field: Field<K::Real, K::Complex>,
    focal_ratio: K::Real,
    ignited: bool,
) -> bool {
    exists|i_focus: K::Real|
        {
            &&& #[trigger] is_focus(k, p, bench.disc, bench.per_unit, field, i_focus)
            &&& call_ensures(K::ratio, (&k, i_focus, bench.i_focus_vacuum), focal_ratio)
            &&& bench.igniter.is_breakdown(i_focus, p.fwhm, p.p0, p.ignition_steps, ignited)
        }
}

/// The field has a Strehl ratio.
pub open spec fn has_strehl<K: IgnitionCase>(
    k: K,
    disc: Disc<K::Real>,
    field: Field<K::Real, K::Complex>,
) -> bool {
    exists|s: K::Real| #[trigger] is_strehl_found(k, disc, field, Ok(s))
}

/// What the Strehl ratio of a field may come to.
pub open spec fn is_strehl_found<K: IgnitionCase>(
    k: K,
    disc: Disc<K::Real>,
    field: Field<K::Real, K::Complex>,
    r: Result<K::Real, ApertureError<K::Real>>,
) -> bool {
    exists|samples: Seq<(usize, usize)>, again: Seq<(usize, usize)>|
        {
            &&& #[trigger] is_pupil_of(k, disc, samples)
            &&& #[trigger] is_pupil_of(k, disc, again)
            &&& is_strehl(k, field.u@, samples, again, r)
        }
}

/// What the displacement of a field's focal spot may come to.
pub open spec fn is_wander_found<K: IgnitionCase>(
    k: K,
    p: IgnitionParams<K::Real>,
    disc: Disc<K::Real>,
    field: Field<K::Real, K::Complex>,
    r: Result<(K::Real, K::Real), ApertureError<K::Real>>,
) -> bool {
    match r {
        Err(ApertureError::BadFocalLength) => {
            call_ensures(K::is_positive, (&k, p.focal_length), false)
        },
        Err(e) => call_ensures(K::is_positive, (&k, p.focal_length), true) && is_tilt_of_field(
            k,
            disc,
            field,
            p.wavelength,
            Err(e),
        ),
        Ok(w) => call_ensures(K::is_positive, (&k, p.focal_length), true) && exists|
            t: (K::Real, K::Real),
        | #[trigger]
            is_tilt_of_field(k, disc, field, p.wavelength, Ok(t)) && is_wander(
                k,
                p.focal_length,
                t,
                w,
            ),
    }
}

/// What member `i` may come to.
pub open spec fn is_shot<K: IgnitionCase>(
    k: K,
    p: IgnitionParams<K::Real>,
    bench: Bench<K>,
    i: u64,
    r: Result<Shot<K::Real>, IgnitionError<K::Real, <K::Path as Medium<K>>::Refusal>>,
) -> bool {
    exists|path: K::Path, dz: K::Real, slabs: usize|
        {
            &&& #[trigger] call_ensures(K::ignition_path, (&k, p, i), path)
            &&& #[trigger] call_ensures(<K::Path as Path<K>>::dz, (&path, &k), dz)
            &&& #[trigger] call_ensures(<K::Path as Path<K>>::n_slabs, (&path, &k), slabs)
            &&& match r {
                Ok(s) => exists|a: Arrival<K::Real, K::Complex>| #[trigger]
                    has_arrived(k, beam_of(p), path, dz, slabs, a) && is_judged(
                        k,
                        p,
                        bench,
                        a,
                        Ok(s),
                    ),
                Err(IgnitionError::Propagate(e)) => is_sent(
                    k,
                    beam_of(p),
                    path,
                    dz,
                    slabs,
                    Err(e),
                ),
                Err(IgnitionError::Pupil(e)) => exists|a: Arrival<K::Real, K::Complex>| #[trigger]
                    has_arrived(k, beam_of(p), path, dz, slabs, a) && is_judged(
                        k,
                        p,
                        bench,
                        a,
                        Err(e),
                    ),
                Err(_) => false,
            }
        }
}

/// Judge an arrived beam.
fn judge<K: IgnitionCase>(
    k: &K,
    p: &IgnitionParams<K::Real>,
    pupil: &Aperture<K::Real>,
    scale: &IntensityScale<K::Real>,
    i_focus_vacuum: K::Real,
    igniter: &AirBreakdown<K::Kinetics>,
    a: &Arrival<K::Real, K::Complex>,
) -> (r: Result<Shot<K::Real>, ApertureError<K::Real>>)
    requires
        pupil@.valid(),
        is_on(pupil@, a.field),
    ensures
        is_judged(
            *k,
            *p,
            (Bench::<K> {
                disc: pupil@,
                per_unit: scale.spec_per_unit(),
                i_focus_vacuum,
                igniter: igniter@,
            }),
            *a,
            r,
        ),
{
    let i_focus: K::Real = focus_of(k, p, pupil, scale, &a.field);
    let focal_ratio: K::Real = k.ratio(i_focus, i_focus_vacuum);
    let found: Result<K::Real, ApertureError<K::Real>> = pupil.phase_only_strehl(k, &a.field);
    proof {
        assert(is_strehl_found(*k, pupil@, a.field, found));
    }
    let strehl: K::Real = match found {
        Ok(s) => s,
        Err(e) => {
            return Err(e);
        },
    };
    proof {
        assert(is_strehl_found(*k, pupil@, a.field, Ok(strehl)));
        assert(has_strehl(*k, pupil@, a.field));
    }
    let moved: Result<(K::Real, K::Real), ApertureError<K::Real>> = pupil.focal_wander_of_field(
        k,
        &a.field,
        p.wavelength,
        p.focal_length,
    );
    proof {
        assert(is_wander_found(*k, *p, pupil@, a.field, moved));
    }
    let wander: (K::Real, K::Real) = match moved {
        Ok(w) => w,
        Err(e) => {
            return Err(e);
        },
    };
    let ignited: bool = igniter.breaks_down(i_focus, p.fwhm, p.p0, p.ignition_steps);
    let guard_frac: K::Real = k.ratio(a.absorbed, a.p_in);
    proof {
        let bench = Bench::<K> {
            disc: pupil@,
            per_unit: scale.spec_per_unit(),
            i_focus_vacuum,
            igniter: igniter@,
        };
        assert(is_focus(*k, *p, bench.disc, bench.per_unit, a.field, i_focus));
        assert(is_lit(*k, *p, bench, a.field, focal_ratio, ignited));
    }
    Ok(Shot { focal_ratio, strehl, wander, ignited, guard_frac })
}

/// Run member `i`.
fn shoot<K: IgnitionCase + Copy>(
    k: &K,
    p: &IgnitionParams<K::Real>,
    pupil: &Aperture<K::Real>,
    scale: &IntensityScale<K::Real>,
    i_focus_vacuum: K::Real,
    igniter: &AirBreakdown<K::Kinetics>,
    i: u64,
) -> (r: Result<Shot<K::Real>, IgnitionError<K::Real, <K::Path as Medium<K>>::Refusal>>)
    requires
        is_run_size(p.n as int, 0),
        is_launchable(*k, p.dx, p.wavelength, p.w0),
        pupil@.valid(),
        pupil@.grid.n == p.n,
    ensures
        is_shot(
            *k,
            *p,
            (Bench::<K> {
                disc: pupil@,
                per_unit: scale.spec_per_unit(),
                i_focus_vacuum,
                igniter: igniter@,
            }),
            i,
            r,
        ),
{
    let path: K::Path = k.ignition_path(*p, i);
    let dz: K::Real = path.dz(k);
    let slabs: usize = path.n_slabs(k);
    proof {
        assert(call_ensures(K::ignition_path, (k, *p, i), path));
        assert(call_ensures(<K::Path as Path<K>>::dz, (&path, k), dz));
        assert(call_ensures(<K::Path as Path<K>>::n_slabs, (&path, k), slabs));
    }
    let beam: Beam<K::Real> = Beam {
        grid: Grid::new(k, p.n, p.dx),
        wavelength: p.wavelength,
        w0: p.w0,
    };
    let sent: Result<
        Arrival<K::Real, K::Complex>,
        PropagateError<<K::Path as Medium<K>>::Refusal>,
    > = send(k, &beam, &path, dz, slabs);
    match sent {
        Err(e) => Err(IgnitionError::Propagate(e)),
        Ok(a) => {
            proof {
                assert(has_arrived(*k, beam_of(*p), path, dz, slabs, a));
                assert(is_on(pupil@, a.field));
            }
            match judge(k, p, pupil, scale, i_focus_vacuum, igniter, &a) {
                Err(e) => Err(IgnitionError::Pupil(e)),
                Ok(s) => Ok(s),
            }
        },
    }
}

/// Members that light the air.
pub open spec fn count_lit<R>(shots: Seq<Shot<R>>) -> nat
    decreases shots.len(),
{
    if shots.len() == 0 {
        0
    } else {
        count_lit(shots.drop_last()) + if shots.last().ignited {
            1nat
        } else {
            0
        }
    }
}

/// No more members light the air than there are.
pub proof fn law_lit_members_are_members<R>(shots: Seq<Shot<R>>)
    ensures
        count_lit(shots) <= shots.len(),
    decreases shots.len(),
{
    if shots.len() > 0 {
        law_lit_members_are_members(shots.drop_last());
    }
}

/// `q` is the fraction of the members that light the air.
pub open spec fn is_fraction_lit<K: PathCase>(k: K, shots: Seq<Shot<K::Real>>, q: K::Real) -> bool {
    exists|lit: K::Real, all: K::Real|
        {
            &&& #[trigger] call_ensures(K::members, (&k, count_lit(shots) as usize), lit)
            &&& #[trigger] call_ensures(K::members, (&k, shots.len() as usize), all)
            &&& call_ensures(K::ratio, (&k, lit, all), q)
        }
}

/// The squared displacements of some members.
pub open spec fn are_squares<K: IgnitionCase>(
    k: K,
    shots: Seq<Shot<K::Real>>,
    squares: Seq<K::Real>,
) -> bool {
    &&& squares.len() == shots.len()
    &&& forall|i: int|
        0 <= i < shots.len() ==> call_ensures(
            K::square_length,
            (&k, shots[i].wander),
            #[trigger] squares[i],
        )
}

/// `w` is the root mean square displacement.
pub open spec fn is_wander_rms<K: IgnitionCase>(
    k: K,
    shots: Seq<Shot<K::Real>>,
    w: K::Real,
) -> bool {
    exists|squares: Seq<K::Real>, mean: K::Real|
        {
            &&& are_squares(k, shots, squares)
            &&& #[trigger] is_mean(k, squares, mean)
            &&& call_ensures(K::root, (&k, mean), w)
        }
}

/// What the edge absorbed of the members.
pub open spec fn guards_of<R>(shots: Seq<Shot<R>>) -> Seq<R> {
    Seq::new(shots.len(), |i: int| shots[i].guard_frac)
}

/// What an ensemble reports of its members.
pub open spec fn is_summary<K: IgnitionCase>(
    k: K,
    i_focus_vacuum: K::Real,
    i_threshold: K::Real,
    shots: Seq<Shot<K::Real>>,
    run: IgnitionRun<K::Real>,
) -> bool {
    &&& run.shots@ == shots
    &&& run.i_focus_vacuum == i_focus_vacuum
    &&& run.i_threshold == i_threshold
    &&& is_fraction_lit(k, shots, run.p_ignite)
    &&& is_wander_rms(k, shots, run.wander_rms)
    &&& is_mean(k, guards_of(shots), run.guard_frac_mean)
}

/// Summarize the members of an ensemble.
pub fn summarize<K: IgnitionCase>(
    k: &K,
    i_focus_vacuum: K::Real,
    i_threshold: K::Real,
    shots: Vec<Shot<K::Real>>,
) -> (run: IgnitionRun<K::Real>)
    ensures
        is_summary(*k, i_focus_vacuum, i_threshold, shots@, run),
{
    let n: usize = shots.len();
    let mut lit: usize = 0;
    let mut squares: Vec<K::Real> = Vec::with_capacity(n);
    let mut guards: Vec<K::Real> = Vec::with_capacity(n);
    for i in 0..n
        invariant
            n == shots@.len(),
            lit <= i,
            lit == count_lit(shots@.subrange(0, i as int)),
            squares@.len() == i,
            forall|l: int|
                0 <= l < i ==> call_ensures(
                    K::square_length,
                    (k, shots@[l].wander),
                    #[trigger] squares@[l],
                ),
            guards@ == guards_of(shots@).subrange(0, i as int),
    {
        squares.push(k.square_length(shots[i].wander));
        guards.push(shots[i].guard_frac);
        proof {
            assert(shots@.subrange(0, i + 1).drop_last() =~= shots@.subrange(0, i as int));
            assert(guards@ =~= guards_of(shots@).subrange(0, i + 1));
        }
        if shots[i].ignited {
            lit = lit + 1;
        }
    }
    proof {
        assert(shots@.subrange(0, n as int) =~= shots@);
        assert(guards@ =~= guards_of(shots@));
        assert(are_squares(*k, shots@, squares@));
    }
    let lit_real: K::Real = k.members(lit);
    let all: K::Real = k.members(n);
    let p_ignite: K::Real = k.ratio(lit_real, all);
    let mean: K::Real = mean_of(k, squares.as_slice());
    let wander_rms: K::Real = k.root(mean);
    let guard_frac_mean: K::Real = mean_of(k, guards.as_slice());
    proof {
        assert(call_ensures(K::members, (k, count_lit(shots@) as usize), lit_real));
        assert(call_ensures(K::members, (k, shots@.len() as usize), all));
        assert(is_fraction_lit(*k, shots@, p_ignite));
        assert(is_mean(*k, squares@, mean));
        assert(is_wander_rms(*k, shots@, wander_rms));
    }
    IgnitionRun { p_ignite, i_focus_vacuum, i_threshold, shots, wander_rms, guard_frac_mean }
}

/// `per_unit` takes the launched beam's intensity to physical units.
pub open spec fn is_scale<K: IgnitionCase>(
    k: K,
    p: IgnitionParams<K::Real>,
    r: Result<K::Real, ScaleError>,
) -> bool {
    exists|launch: Field<K::Real, K::Complex>, power: K::Real|
        {
            &&& is_launch(k, Grid { n: p.n, dx: p.dx }, p.wavelength, p.w0, launch)
            &&& #[trigger] is_power(k, launch.u@, p.n as nat, power)
            &&& match r {
                Ok(per_unit) => {
                    &&& call_ensures(K::is_positive, (&k, p.power), true)
                    &&& call_ensures(K::is_positive, (&k, power), true)
                    &&& call_ensures(K::ratio, (&k, p.power, power), per_unit)
                },
                Err(ScaleError::BadBeamPower) => {
                    call_ensures(K::is_positive, (&k, p.power), false)
                },
                Err(ScaleError::BadFieldPower) => {
                    &&& call_ensures(K::is_positive, (&k, p.power), true)
                    &&& call_ensures(K::is_positive, (&k, power), false)
                },
            }
        }
}

fn scale_of<K: IgnitionCase>(k: &K, p: &IgnitionParams<K::Real>) -> (r: Result<
    IntensityScale<K::Real>,
    ScaleError,
>)
    requires
        is_run_size(p.n as int, 0),
        is_launchable(*k, p.dx, p.wavelength, p.w0),
    ensures
        match r {
            Ok(scale) => is_scale(*k, *p, Ok(scale.spec_per_unit())),
            Err(e) => is_scale(*k, *p, Err(e)),
        },
{
    let grid: Grid<K::Real> = Grid::new(k, p.n, p.dx);
    let launch: Field<K::Real, K::Complex> = Field::gaussian(k, grid, p.wavelength, p.w0);
    let power: K::Real = launch.power(k);
    proof {
        assert(is_launch(*k, grid, p.wavelength, p.w0, launch));
        assert(is_power(*k, launch.u@, p.n as nat, power));
    }
    IntensityScale::from_beam_power(k, p.power, power)
}

/// The beam reaches the focus through vacuum.
pub open spec fn is_reference_found<K: IgnitionCase>(
    k: K,
    p: IgnitionParams<K::Real>,
    disc: Disc<K::Real>,
    per_unit: K::Real,
    medium: Vacuum,
    dz: K::Real,
    a: Arrival<K::Real, K::Complex>,
    i: K::Real,
) -> bool {
    &&& medium.spec_n() == p.n
    &&& call_ensures(K::slab, (&k, p.z, p.screens), dz)
    &&& has_arrived(k, beam_of(p), medium, dz, p.screens, a)
    &&& is_focus(k, p, disc, per_unit, a.field, i)
}

pub open spec fn has_reference<K: IgnitionCase>(
    k: K,
    p: IgnitionParams<K::Real>,
    disc: Disc<K::Real>,
    per_unit: K::Real,
    i: K::Real,
) -> bool {
    exists|medium: Vacuum, dz: K::Real, a: Arrival<K::Real, K::Complex>| #[trigger]
        is_reference_found(k, p, disc, per_unit, medium, dz, a, i)
}

/// The beam does not get through vacuum.
pub open spec fn is_reference_lost<K: IgnitionCase>(
    k: K,
    p: IgnitionParams<K::Real>,
    medium: Vacuum,
    dz: K::Real,
    e: PropagateError<()>,
) -> bool {
    &&& medium.spec_n() == p.n
    &&& call_ensures(K::slab, (&k, p.z, p.screens), dz)
    &&& is_sent(k, beam_of(p), medium, dz, p.screens, Err(e))
}

/// What the focal intensity without turbulence may come to.
pub open spec fn is_reference<K: IgnitionCase>(
    k: K,
    p: IgnitionParams<K::Real>,
    disc: Disc<K::Real>,
    per_unit: K::Real,
    r: Result<K::Real, PropagateError<()>>,
) -> bool {
    match r {
        Ok(i) => has_reference(k, p, disc, per_unit, i),
        Err(e) => exists|medium: Vacuum, dz: K::Real| #[trigger]
            is_reference_lost(k, p, medium, dz, e),
    }
}

/// The focal intensity without turbulence.
fn reference_of<K: IgnitionCase + Copy>(
    k: &K,
    p: &IgnitionParams<K::Real>,
    pupil: &Aperture<K::Real>,
    scale: &IntensityScale<K::Real>,
) -> (r: Result<K::Real, PropagateError<()>>)
    requires
        is_run_size(p.n as int, 0),
        is_launchable(*k, p.dx, p.wavelength, p.w0),
        pupil@.valid(),
        pupil@.grid.n == p.n,
    ensures
        is_reference(*k, *p, pupil@, scale.spec_per_unit(), r),
{
    let medium: Vacuum = Vacuum::new(p.n);
    let dz: K::Real = k.slab(p.z, p.screens);
    let beam: Beam<K::Real> = Beam {
        grid: Grid::new(k, p.n, p.dx),
        wavelength: p.wavelength,
        w0: p.w0,
    };
    let sent: Result<Arrival<K::Real, K::Complex>, PropagateError<()>> = send(
        k,
        &beam,
        &medium,
        dz,
        p.screens,
    );
    match sent {
        Err(e) => {
            proof {
                assert(is_reference_lost(*k, *p, medium, dz, e));
            }
            Err(e)
        },
        Ok(a) => {
            proof {
                assert(has_arrived(*k, beam_of(*p), medium, dz, p.screens, a));
                assert(is_on(pupil@, a.field));
            }
            let i: K::Real = focus_of(k, p, pupil, scale, &a.field);
            proof {
                assert(is_reference_found(
                    *k,
                    *p,
                    pupil@,
                    scale.spec_per_unit(),
                    medium,
                    dz,
                    a,
                    i,
                ));
                assert(has_reference(*k, *p, pupil@, scale.spec_per_unit(), i));
            }
            Ok(i)
        },
    }
}

/// `m` is the model of the gas at the focus.
pub open spec fn is_igniter<K: IgnitionCase>(
    k: K,
    p: IgnitionParams<K::Real>,
    r: Result<AirBreakdown<K::Kinetics>, BreakdownError<K::Real>>,
) -> bool {
    exists|kinetics: K::Kinetics, s: Setup<K::Real>|
        {
            &&& #[trigger] call_ensures(K::kinetics, (&k,), kinetics)
            &&& #[trigger] call_ensures(K::setup, (&k, p.wavelength), s)
            &&& is_model(kinetics, s.wavelength, s.gas, s.focus, s.temperature, r)
        }
}

fn igniter_of<K: IgnitionCase>(k: &K, p: &IgnitionParams<K::Real>) -> (r: Result<
    AirBreakdown<K::Kinetics>,
    BreakdownError<K::Real>,
>)
    ensures
        is_igniter(*k, *p, r),
{
    let kinetics: K::Kinetics = k.kinetics();
    let s: Setup<K::Real> = k.setup(p.wavelength);
    let ghost kin = kinetics;
    proof {
        assert(call_ensures(K::kinetics, (k,), kin));
        assert(call_ensures(K::setup, (k, p.wavelength), s));
    }
    AirBreakdown::new(kinetics, s.wavelength, s.gas, s.focus, s.temperature)
}

/// The members of an ensemble.
pub open spec fn are_shots<K: IgnitionCase>(
    k: K,
    p: IgnitionParams<K::Real>,
    bench: Bench<K>,
    results: Seq<Result<Shot<K::Real>, IgnitionError<K::Real, <K::Path as Medium<K>>::Refusal>>>,
) -> bool {
    &&& results.len() == p.realizations
    &&& forall|i: int|
        0 <= i < results.len() ==> is_shot(k, p, bench, i as u64, #[trigger] results[i])
}

/// What the members of an ensemble come to: a summary, or the first failure.
pub open spec fn is_ensemble<K: IgnitionCase>(
    k: K,
    p: IgnitionParams<K::Real>,
    bench: Bench<K>,
    i_threshold: K::Real,
    results: Seq<Result<Shot<K::Real>, IgnitionError<K::Real, <K::Path as Medium<K>>::Refusal>>>,
    r: Result<IgnitionRun<K::Real>, IgnitionError<K::Real, <K::Path as Medium<K>>::Refusal>>,
) -> bool {
    &&& are_shots(k, p, bench, results)
    &&& match r {
        Ok(run) => is_gathered(results, Ok(run.shots@)) && is_summary(
            k,
            bench.i_focus_vacuum,
            i_threshold,
            run.shots@,
            run,
        ),
        Err(e) => is_gathered(results, Err(e)),
    }
}

/// The preparations of an ensemble.
pub struct Prepared<K: IgnitionCase> {
    pub pupil: Aperture<K::Real>,
    pub per_unit: K::Real,
    pub i_focus_vacuum: K::Real,
    pub igniter: AirBreakdown<K::Kinetics>,
    pub i_threshold: K::Real,
}

/// How far the preparations of an ensemble come: `stage` of them are made.
pub open spec fn is_prepared<K: IgnitionCase>(
    k: K,
    p: IgnitionParams<K::Real>,
    stage: int,
    m: Prepared<K>,
) -> bool {
    &&& p.realizations > 0
    &&& stage >= 1 ==> is_aperture(k, Grid { n: p.n, dx: p.dx }, p.aperture, Ok(m.pupil))
    &&& stage >= 2 ==> is_scale(k, p, Ok(m.per_unit))
    &&& stage >= 3 ==> is_reference(k, p, m.pupil@, m.per_unit, Ok(m.i_focus_vacuum))
    &&& stage >= 4 ==> call_ensures(K::is_positive, (&k, m.i_focus_vacuum), true)
    &&& stage >= 5 ==> is_igniter(k, p, Ok(m.igniter))
    &&& stage >= 6 ==> m.igniter@.is_threshold(
        p.fwhm,
        p.p0,
        p.ignition_steps,
        Ok(m.i_threshold),
    )
}

/// Why an ensemble ends before its members are run: the first preparation that
/// fails.
pub open spec fn is_unprepared<K: IgnitionCase>(
    k: K,
    p: IgnitionParams<K::Real>,
    m: Prepared<K>,
    e: IgnitionError<K::Real, <K::Path as Medium<K>>::Refusal>,
) -> bool {
    match e {
        IgnitionError::NoRealizations => p.realizations == 0,
        IgnitionError::Aperture(e) => is_prepared(k, p, 0, m) && is_aperture(
            k,
            Grid { n: p.n, dx: p.dx },
            p.aperture,
            Err(e),
        ),
        IgnitionError::Scale(e) => is_prepared(k, p, 1, m) && is_scale(k, p, Err(e)),
        IgnitionError::Vacuum(e) => is_prepared(k, p, 2, m) && is_reference(
            k,
            p,
            m.pupil@,
            m.per_unit,
            Err(e),
        ),
        IgnitionError::NoReference => is_prepared(k, p, 3, m) && call_ensures(
            K::is_positive,
            (&k, m.i_focus_vacuum),
            false,
        ),
        IgnitionError::Igniter(e) => is_prepared(k, p, 4, m) && is_igniter(k, p, Err(e)),
        IgnitionError::Threshold(e) => is_prepared(k, p, 5, m) && m.igniter@.is_threshold(
            p.fwhm,
            p.p0,
            p.ignition_steps,
            Err(e),
        ),
        _ => false,
    }
}

/// What the members share.
pub open spec fn bench_of<K: IgnitionCase>(m: Prepared<K>) -> Bench<K> {
    Bench {
        disc: m.pupil@,
        per_unit: m.per_unit,
        i_focus_vacuum: m.i_focus_vacuum,
        igniter: m.igniter@,
    }
}

/// A prepared ensemble is run.
pub open spec fn is_ensemble_run<K: IgnitionCase>(
    k: K,
    p: IgnitionParams<K::Real>,
    m: Prepared<K>,
    results: Seq<Result<Shot<K::Real>, IgnitionError<K::Real, <K::Path as Medium<K>>::Refusal>>>,
    r: Result<IgnitionRun<K::Real>, IgnitionError<K::Real, <K::Path as Medium<K>>::Refusal>>,
) -> bool {
    &&& is_prepared(k, p, 6, m)
    &&& is_ensemble(k, p, bench_of(m), m.i_threshold, results, r)
}

/// What [`run_ignition`] may return.
pub open spec fn is_ignition_run<K: IgnitionCase>(
    k: K,
    p: IgnitionParams<K::Real>,
    r: Result<IgnitionRun<K::Real>, IgnitionError<K::Real, <K::Path as Medium<K>>::Refusal>>,
) -> bool {
    ||| r matches Err(e) && exists|m: Prepared<K>| #[trigger] is_unprepared(k, p, m, e)
    ||| exists|
        m: Prepared<K>,
        results: Seq<Result<Shot<K::Real>, IgnitionError<K::Real, <K::Path as Medium<K>>::Refusal>>>,
    | #[trigger]
        is_ensemble_run(k, p, m, results, r)
}

/// Run an ensemble of turbulent paths and report how often the focus still lights
/// the air.
pub fn run_ignition<K: IgnitionCase + Copy + Sync>(k: &K, p: &IgnitionParams<K::Real>) -> (r: Result<
    IgnitionRun<K::Real>,
    IgnitionError<K::Real, <K::Path as Medium<K>>::Refusal>,
>) where
    K::Real: Send + Sync,
    K::Kinetics: Sync,
    <K::Path as Medium<K>>::Refusal: Send,

    requires
        is_run_size(p.n as int, 0),
        is_launchable(*k, p.dx, p.wavelength, p.w0),
    ensures
        is_ignition_run(*k, *p, r),
{
    let ghost blank: Prepared<K> = arbitrary();
    if p.realizations == 0 {
        proof {
            assert(is_unprepared(*k, *p, blank, IgnitionError::NoRealizations));
        }
        return Err(IgnitionError::NoRealizations);
    }
    let grid: Grid<K::Real> = Grid::new(k, p.n, p.dx);
    let pupil: Aperture<K::Real> = match Aperture::new(k, grid, p.aperture) {
        Ok(a) => a,
        Err(e) => {
            proof {
                assert(is_unprepared(*k, *p, blank, IgnitionError::Aperture(e)));
            }
            return Err(IgnitionError::Aperture(e));
        },
    };
    let ghost m1 = Prepared { pupil, ..blank };
    let scale: IntensityScale<K::Real> = match scale_of(k, p) {
        Ok(s) => s,
        Err(e) => {
            proof {
                assert(is_unprepared(*k, *p, m1, IgnitionError::Scale(e)));
            }
            return Err(IgnitionError::Scale(e));
        },
    };
    let ghost m2 = Prepared { per_unit: scale.spec_per_unit(), ..m1 };
    let i_focus_vacuum: K::Real = match reference_of(k, p, &pupil, &scale) {
        Ok(i) => i,
        Err(e) => {
            proof {
                assert(is_unprepared(*k, *p, m2, IgnitionError::Vacuum(e)));
            }
            return Err(IgnitionError::Vacuum(e));
        },
    };
    let ghost m3 = Prepared { i_focus_vacuum, ..m2 };
    if !k.is_positive(i_focus_vacuum) {
        proof {
            assert(is_unprepared(*k, *p, m3, IgnitionError::NoReference));
        }
        return Err(IgnitionError::NoReference);
    }
    let igniter: AirBreakdown<K::Kinetics> = match igniter_of(k, p) {
        Ok(m) => m,
        Err(e) => {
            proof {
                assert(is_unprepared(*k, *p, m3, IgnitionError::Igniter(e)));
            }
            return Err(IgnitionError::Igniter(e));
        },
    };
    let ghost m5 = Prepared { igniter, ..m3 };
    let i_threshold: K::Real = match igniter.threshold_intensity(p.fwhm, p.p0, p.ignition_steps) {
        Ok(t) => t,
        Err(e) => {
            proof {
                assert(is_unprepared(*k, *p, m5, IgnitionError::Threshold(e)));
            }
            return Err(IgnitionError::Threshold(e));
        },
    };
    let ghost m6 = Prepared { i_threshold, ..m5 };
    let ghost bench = bench_of(m6);
    let (pupil_ref, scale_ref, igniter_ref): (
        &Aperture<K::Real>,
        &IntensityScale<K::Real>,
        &AirBreakdown<K::Kinetics>,
    ) = (&pupil, &scale, &igniter);
    let member = |i: u64| -> (r: Result<
        Shot<K::Real>,
        IgnitionError<K::Real, <K::Path as Medium<K>>::Refusal>,
    >)
        ensures
            is_shot(
                *k,
                *p,
                shared(pupil_ref, scale_ref, i_focus_vacuum, igniter_ref),
                i,
                r,
            ),
        { shoot(k, p, pupil_ref, scale_ref, i_focus_vacuum, igniter_ref, i) };
    let results: Vec<Result<Shot<K::Real>, IgnitionError<K::Real, <K::Path as Medium<K>>::Refusal>>> =
        seeded_ensemble(p.realizations, member);
    let ghost all = results@;
    proof {
        assert(bench == shared::<K>(&pupil, &scale, i_focus_vacuum, &igniter));
        assert(are_shots(*k, *p, bench, all));
        assert(is_prepared(*k, *p, 6, m6));
    }
    match gather(results) {
        Err(e) => {
            proof {
                assert(is_ensemble_run(*k, *p, m6, all, Err(e)));
            }
            Err(e)
        },
        Ok(shots) => {
            let run: IgnitionRun<K::Real> = summarize(k, i_focus_vacuum, i_threshold, shots);
            proof {
                assert(is_ensemble_run(*k, *p, m6, all, Ok(run)));
            }
            Ok(run)
        },
    }
}

/// Two ensembles that differ in nothing but how many members they have.
pub open spec fn is_sized_otherwise<R>(p: IgnitionParams<R>, q: IgnitionParams<R>) -> bool {
    q == (IgnitionParams { realizations: q.realizations, ..p })
}

/// The path of a member does not depend on how many members there are.
pub open spec fn has_own_paths<K: IgnitionCase>(k: K) -> bool {
    forall|p: IgnitionParams<K::Real>, q: IgnitionParams<K::Real>, i: u64, path: K::Path|
        #![trigger is_sized_otherwise(p, q), call_ensures(K::ignition_path, (&k, p, i), path)]
        is_sized_otherwise(p, q) && call_ensures(K::ignition_path, (&k, p, i), path)
            ==> call_ensures(K::ignition_path, (&k, q, i), path)
}

proof fn lemma_focus_is_alike<K: IgnitionCase>(
    k: K,
    p: IgnitionParams<K::Real>,
    q: IgnitionParams<K::Real>,
    disc: Disc<K::Real>,
    per_unit: K::Real,
    field: Field<K::Real, K::Complex>,
    i: K::Real,
)
    requires
        is_sized_otherwise(p, q),
        is_focus(k, p, disc, per_unit, field, i),
    ensures
        is_focus(k, q, disc, per_unit, field, i),
{
    let (samples, focal_power) = choose|samples: Seq<(usize, usize)>, focal_power: K::Real|
        {
            &&& is_pupil_of(k, disc, samples)
            &&& #[trigger] is_focal_power(k, field.u@, samples, focal_power)
            &&& is_focal_intensity(k, p, per_unit, focal_power, i)
        };
    assert(is_focal_intensity(k, q, per_unit, focal_power, i));
}

proof fn lemma_judgement_is_alike<K: IgnitionCase>(
    k: K,
    p: IgnitionParams<K::Real>,
    q: IgnitionParams<K::Real>,
    bench: Bench<K>,
    a: Arrival<K::Real, K::Complex>,
    r: Result<Shot<K::Real>, ApertureError<K::Real>>,
)
    requires
        is_sized_otherwise(p, q),
        is_judged(k, p, bench, a, r),
    ensures
        is_judged(k, q, bench, a, r),
{
    if let Ok(s) = r {
        let i_focus = choose|i_focus: K::Real|
            {
                &&& #[trigger] is_focus(k, p, bench.disc, bench.per_unit, a.field, i_focus)
                &&& call_ensures(K::ratio, (&k, i_focus, bench.i_focus_vacuum), s.focal_ratio)
                &&& bench.igniter.is_breakdown(i_focus, p.fwhm, p.p0, p.ignition_steps, s.ignited)
            };
        lemma_focus_is_alike(k, p, q, bench.disc, bench.per_unit, a.field, i_focus);
        assert(is_lit(k, q, bench, a.field, s.focal_ratio, s.ignited));
    }
}

proof fn lemma_shot_is_alike<K: IgnitionCase>(
    k: K,
    p: IgnitionParams<K::Real>,
    q: IgnitionParams<K::Real>,
    bench: Bench<K>,
    i: u64,
    r: Result<Shot<K::Real>, IgnitionError<K::Real, <K::Path as Medium<K>>::Refusal>>,
)
    requires
        is_sized_otherwise(p, q),
        has_own_paths(k),
        is_shot(k, p, bench, i, r),
    ensures
        is_shot(k, q, bench, i, r),
{
    let (path, dz, slabs) = choose|path: K::Path, dz: K::Real, slabs: usize|
        {
            &&& #[trigger] call_ensures(K::ignition_path, (&k, p, i), path)
            &&& #[trigger] call_ensures(<K::Path as Path<K>>::dz, (&path, &k), dz)
            &&& #[trigger] call_ensures(<K::Path as Path<K>>::n_slabs, (&path, &k), slabs)
            &&& match r {
                Ok(s) => exists|a: Arrival<K::Real, K::Complex>| #[trigger]
                    has_arrived(k, beam_of(p), path, dz, slabs, a) && is_judged(
                        k,
                        p,
                        bench,
                        a,
                        Ok(s),
                    ),
                Err(IgnitionError::Propagate(e)) => is_sent(
                    k,
                    beam_of(p),
                    path,
                    dz,
                    slabs,
                    Err(e),
                ),
                Err(IgnitionError::Pupil(e)) => exists|a: Arrival<K::Real, K::Complex>| #[trigger]
                    has_arrived(k, beam_of(p), path, dz, slabs, a) && is_judged(
                        k,
                        p,
                        bench,
                        a,
                        Err(e),
                    ),
                Err(_) => false,
            }
        };
    assert(call_ensures(K::ignition_path, (&k, q, i), path));
    assert(beam_of(q) == beam_of(p));
    match r {
        Ok(s) => {
            let a = choose|a: Arrival<K::Real, K::Complex>| #[trigger]
                has_arrived(k, beam_of(p), path, dz, slabs, a) && is_judged(k, p, bench, a, Ok(s));
            lemma_judgement_is_alike(k, p, q, bench, a, Ok(s));
            assert(has_arrived(k, beam_of(q), path, dz, slabs, a));
        },
        Err(IgnitionError::Pupil(e)) => {
            let a = choose|a: Arrival<K::Real, K::Complex>| #[trigger]
                has_arrived(k, beam_of(p), path, dz, slabs, a) && is_judged(k, p, bench, a, Err(e));
            lemma_judgement_is_alike(k, p, q, bench, a, Err(e));
            assert(has_arrived(k, beam_of(q), path, dz, slabs, a));
        },
        Err(_) => {},
    }
}

proof fn lemma_preparations_are_alike<K: IgnitionCase>(
    k: K,
    p: IgnitionParams<K::Real>,
    q: IgnitionParams<K::Real>,
    m: Prepared<K>,
)
    requires
        is_sized_otherwise(p, q),
        q.realizations > 0,
        is_prepared(k, p, 6, m),
    ensures
        is_prepared(k, q, 6, m),
{
    let (launch, power) = choose|launch: Field<K::Real, K::Complex>, power: K::Real|
        {
            &&& is_launch(k, Grid { n: p.n, dx: p.dx }, p.wavelength, p.w0, launch)
            &&& #[trigger] is_power(k, launch.u@, p.n as nat, power)
            &&& call_ensures(K::is_positive, (&k, p.power), true)
            &&& call_ensures(K::is_positive, (&k, power), true)
            &&& call_ensures(K::ratio, (&k, p.power, power), m.per_unit)
        };
    assert(is_power(k, launch.u@, q.n as nat, power));
    assert(is_scale(k, q, Ok(m.per_unit)));
    let (medium, dz, a) = choose|
        medium: Vacuum,
        dz: K::Real,
        a: Arrival<K::Real, K::Complex>,
    | #[trigger]
        is_reference_found(k, p, m.pupil@, m.per_unit, medium, dz, a, m.i_focus_vacuum);
    lemma_focus_is_alike(k, p, q, m.pupil@, m.per_unit, a.field, m.i_focus_vacuum);
    assert(beam_of(q) == beam_of(p));
    assert(is_reference_found(k, q, m.pupil@, m.per_unit, medium, dz, a, m.i_focus_vacuum));
    let (kinetics, s) = choose|kinetics: K::Kinetics, s: Setup<K::Real>|
        {
            &&& #[trigger] call_ensures(K::kinetics, (&k,), kinetics)
            &&& #[trigger] call_ensures(K::setup, (&k, p.wavelength), s)
            &&& is_model(kinetics, s.wavelength, s.gas, s.focus, s.temperature, Ok(m.igniter))
        };
    assert(call_ensures(K::setup, (&k, q.wavelength), s));
    assert(is_igniter(k, q, Ok(m.igniter)));
}

/// The first members of an ensemble do not depend on how many follow: a summary of
/// the first members of a larger ensemble, against the same intensity in vacuum and
/// the same threshold, is what the smaller ensemble may return.
pub proof fn law_first_members_stand_alone<K: IgnitionCase>(
    k: K,
    p: IgnitionParams<K::Real>,
    q: IgnitionParams<K::Real>,
    larger: IgnitionRun<K::Real>,
    smaller: IgnitionRun<K::Real>,
)
    requires
        is_sized_otherwise(p, q),
        0 < q.realizations <= p.realizations,
        has_own_paths(k),
        is_ignition_run(k, p, Ok(larger)),
        is_summary(
            k,
            larger.i_focus_vacuum,
            larger.i_threshold,
            larger.shots@.subrange(0, q.realizations as int),
            smaller,
        ),
    ensures
        is_ignition_run(k, q, Ok(smaller)),
{
    let (m, results) = choose|
        m: Prepared<K>,
        results: Seq<Result<Shot<K::Real>, IgnitionError<K::Real, <K::Path as Medium<K>>::Refusal>>>,
    | #[trigger]
        is_ensemble_run(k, p, m, results, Ok(larger));
    lemma_preparations_are_alike(k, p, q, m);
    let first = results.subrange(0, q.realizations as int);
    let bench = bench_of(m);
    assert forall|i: int| 0 <= i < first.len() implies is_shot(
        k,
        q,
        bench,
        i as u64,
        #[trigger] first[i],
    ) by {
        assert(is_shot(k, p, bench, i as u64, results[i]));
        lemma_shot_is_alike(k, p, q, bench, i as u64, results[i]);
    }
    assert(is_gathered(first, Ok(smaller.shots@))) by {
        assert forall|i: int| 0 <= i < first.len() implies first[i] == Ok::<
            Shot<K::Real>,
            IgnitionError<K::Real, <K::Path as Medium<K>>::Refusal>,
        >(#[trigger] smaller.shots@[i]) by {
            assert(smaller.shots@[i] == larger.shots@[i]);
            assert(results[i] == first[i]);
        }
    }
    assert(is_ensemble(k, q, bench, m.i_threshold, first, Ok(smaller)));
    assert(is_ensemble_run(k, q, m, first, Ok(smaller)));
}

/// What prepares an ensemble and what a member comes to, where they do not fail, are
/// functions of their arguments.
pub open spec fn runs_alike<K: IgnitionCase>(k: K, p: IgnitionParams<K::Real>) -> bool {
    &&& forall|a: Prepared<K>, b: Prepared<K>| #[trigger]
        is_prepared(k, p, 6, a) && #[trigger] is_prepared(k, p, 6, b) ==> bench_of(a) == bench_of(b)
            && a.i_threshold == b.i_threshold
    &&& forall|m: Prepared<K>, i: u64, a: Shot<K::Real>, b: Shot<K::Real>|
        #![trigger is_shot(k, p, bench_of(m), i, Ok(a)), is_shot(k, p, bench_of(m), i, Ok(b))]
        is_prepared(k, p, 6, m) && is_shot(k, p, bench_of(m), i, Ok(a)) && is_shot(
            k,
            p,
            bench_of(m),
            i,
            Ok(b),
        ) ==> a == b
}

/// Where preparations and members are functions of their arguments, the members of
/// the smaller of two ensembles are the first members of the larger, one by one, and
/// the two have the same intensity in vacuum and the same threshold.
pub(crate) proof fn lemma_members_are_alike<K: IgnitionCase>(
    k: K,
    p: IgnitionParams<K::Real>,
    q: IgnitionParams<K::Real>,
    larger: IgnitionRun<K::Real>,
    smaller: IgnitionRun<K::Real>,
)
    requires
        is_sized_otherwise(p, q),
        0 < q.realizations <= p.realizations,
        has_own_paths(k),
        runs_alike(k, q),
        is_ignition_run(k, p, Ok(larger)),
        is_ignition_run(k, q, Ok(smaller)),
    ensures
        smaller.shots@ == larger.shots@.subrange(0, q.realizations as int),
        smaller.i_focus_vacuum == larger.i_focus_vacuum,
        smaller.i_threshold == larger.i_threshold,
{
    let (m, results) = choose|
        m: Prepared<K>,
        results: Seq<Result<Shot<K::Real>, IgnitionError<K::Real, <K::Path as Medium<K>>::Refusal>>>,
    | #[trigger]
        is_ensemble_run(k, p, m, results, Ok(larger));
    let (n, own) = choose|
        m: Prepared<K>,
        results: Seq<Result<Shot<K::Real>, IgnitionError<K::Real, <K::Path as Medium<K>>::Refusal>>>,
    | #[trigger]
        is_ensemble_run(k, q, m, results, Ok(smaller));
    lemma_preparations_are_alike(k, p, q, m);
    assert(bench_of(m) == bench_of(n));
    assert forall|i: int| 0 <= i < own.len() implies smaller.shots@[i] == larger.shots@[i] by {
        assert(is_shot(k, q, bench_of(n), i as u64, own[i]));
        assert(is_shot(k, p, bench_of(m), i as u64, results[i]));
        lemma_shot_is_alike(k, p, q, bench_of(m), i as u64, results[i]);
        assert(own[i] == Ok::<Shot<K::Real>, IgnitionError<K::Real, <K::Path as Medium<K>>::Refusal>>(
            smaller.shots@[i],
        ));
        assert(results[i] == Ok::<Shot<K::Real>, IgnitionError<K::Real, <K::Path as Medium<K>>::Refusal>>(
            larger.shots@[i],
        ));
    }
    assert(smaller.shots@ =~= larger.shots@.subrange(0, q.realizations as int));
}

} // verus!

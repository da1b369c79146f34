//! What a step of the gas on rings conserves, and what its mesh mirrors.
use crate::algebra::{lemma_commutes, lemma_distributes, lemma_scaled_gain, lemma_trades};
use crate::euler1d::N_GHOST;
use crate::euler2d::{
    are_cell_faces, are_swept, axial_sweep, axial_sweeps, is_added, is_advanced, is_build,
    is_carried, is_cell_volume, is_dir_hllc, is_face_area, is_face_radius, is_integral,
    is_integral_run, is_leak, is_line_outcome, is_mirror, is_padded_area, is_padded_volume,
    is_r_sweep, is_ring_added, is_ring_run, is_split_step, is_step_outcome, is_sweep_end,
    is_weighted_sum, is_x_sweep, lemma_x_sweep_keeps_shape, metric_at, radial_sweep, radial_sweeps,
    ring_weights, same_weight, with_columns, with_rows, Boundary2d, Conserved2d, Dir, Domain2d,
    Euler2d, Faces, Geometry, Metric, Primitive2d, Scheme2d, Sweep,
};
use crate::plane::column_of;
use crate::reconstruct::{is_weighted_update, lemma_weighted_update_moves};
use crate::riemann::is_exact_in;
use crate::walls::{
    is_at_rest, is_gas2d, law_wall_lets_nothing_through, law_wall_mirrors_the_faces,
    lemma_mirror_is_image, reflects, turned,
};
use vstd::prelude::*;

verus! {

/// Total of a measured quantity over a line, each cell with its volume.
pub open spec fn tally<R>(
    stored: spec_fn(Conserved2d<R>, R) -> real,
    line: Seq<Conserved2d<R>>,
    volumes: Seq<R>,
) -> real
    decreases line.len(),
{
    if line.len() == 0 {
        0real
    } else {
        tally(stored, line.drop_last(), volumes) + stored(
            line.last(),
            volumes[N_GHOST + line.len() - 1],
        )
    }
}

impl<K: Scheme2d> Sweep<K> {
    /// A metric of one of the cells that the sweep updates.
    pub open spec fn has_metric(self, metric: Metric<K::Real>) -> bool {
        exists|k: int|
            N_GHOST <= k < N_GHOST + self.line.len() && metric == #[trigger] metric_at(
                self.areas,
                self.volumes,
                k,
            )
    }

    /// The ghosts beyond a mirroring end have the mirrored metric.
    pub open spec fn has_mirrored_ends(self) -> bool {
        let n = self.line.len() as int;
        &&& self.lo.spec_mirrors() ==> metric_at(self.areas, self.volumes, N_GHOST - 1) == turned(
            metric_at(self.areas, self.volumes, N_GHOST as int),
        )
        &&& self.hi.spec_mirrors() ==> metric_at(self.areas, self.volumes, N_GHOST + n) == turned(
            metric_at(self.areas, self.volumes, N_GHOST + n - 1),
        )
    }

    pub open spec fn is_open(self) -> bool {
        self.lo == Boundary2d::Transmissive || self.hi == Boundary2d::Transmissive
    }
}

/// The flux difference of a sweep moves a quantity and creates none: what a
/// cell gains is what its lower interface carries in less what its upper one
/// carries out, each by its area.
spec fn moves_only<K: Scheme2d>(
    sweep: Sweep<K>,
    stored: spec_fn(Conserved2d<K::Real>, K::Real) -> real,
    carried: spec_fn(Conserved2d<K::Real>, K::Real) -> real,
) -> bool {
    forall|
        u: Conserved2d<K::Real>,
        lo: Conserved2d<K::Real>,
        hi: Conserved2d<K::Real>,
        metric: Metric<K::Real>,
        centre: Conserved2d<K::Real>,
        v: Conserved2d<K::Real>,
    |
        sweep.has_metric(metric) && #[trigger] is_advanced(
            sweep.scheme,
            sweep.dir,
            sweep.dt,
            u,
            lo,
            hi,
            metric,
            sweep.geometric,
            centre,
            v,
        ) ==> stored(v, metric.volume) == stored(u, metric.volume) + carried(lo, metric.lower)
            - carried(hi, metric.upper)
}

proof fn lemma_sweep_telescopes<K: Scheme2d>(
    sweep: Sweep<K>,
    faces: Seq<Faces<K::Real>>,
    fluxes: Seq<Conserved2d<K::Real>>,
    updated: Seq<Conserved2d<K::Real>>,
    stored: spec_fn(Conserved2d<K::Real>, K::Real) -> real,
    carried: spec_fn(Conserved2d<K::Real>, K::Real) -> real,
    m: int,
)
    requires
        0 <= m <= sweep.line.len(),
        sweep.is_update(faces, fluxes, updated),
        moves_only(sweep, stored, carried),
    ensures
        tally(stored, updated.subrange(0, m), sweep.volumes) == tally(
            stored,
            sweep.line.subrange(0, m),
            sweep.volumes,
        ) + carried(fluxes[0], sweep.areas[N_GHOST as int]) - carried(
            fluxes[m],
            sweep.areas[N_GHOST + m],
        ),
    decreases m,
{
    if m > 0 {
        let i = m - 1;
        lemma_sweep_telescopes(sweep, faces, fluxes, updated, stored, carried, i);
        assert(updated.subrange(0, m).drop_last() =~= updated.subrange(0, i));
        assert(sweep.line.subrange(0, m).drop_last() =~= sweep.line.subrange(0, i));
        let metric = metric_at(sweep.areas, sweep.volumes, N_GHOST + i);
        let u = sweep.line[i];
        assert(sweep.has_metric(metric));
        assert(stored(updated[i], metric.volume) == stored(u, metric.volume) + carried(
            fluxes[i],
            metric.lower,
        ) - carried(fluxes[i + 1], metric.upper));
    } else {
        assert(updated.subrange(0, 0) =~= sweep.line.subrange(0, 0));
    }
}

/// Over a sweep of a line, a quantity that the flux difference only moves changes
/// by what the two end interfaces carry, and by nothing else. The fluxes are those
/// of the sweep's own reconstruction, which update the cells and of which the
/// escaped energy is booked.
proof fn lemma_sweep_conserves<K: Scheme2d>(
    sweep: Sweep<K>,
    updated: Seq<Conserved2d<K::Real>>,
    escaped: K::Real,
    stored: spec_fn(Conserved2d<K::Real>, K::Real) -> real,
    carried: spec_fn(Conserved2d<K::Real>, K::Real) -> real,
)
    requires
        is_line_outcome(sweep, Ok((updated, escaped))),
        moves_only(sweep, stored, carried),
    ensures
        exists|
            padded: Seq<Conserved2d<K::Real>>,
            faces: Seq<Faces<K::Real>>,
            fluxes: Seq<Conserved2d<K::Real>>,
        |
            {
                &&& #[trigger] sweep.are_faces(padded, faces)
                &&& #[trigger] sweep.are_fluxes(faces, fluxes)
                &&& sweep.is_update(faces, fluxes, updated)
                &&& sweep.is_escaped(fluxes, escaped)
                &&& tally(stored, updated, sweep.volumes) == tally(
                    stored,
                    sweep.line,
                    sweep.volumes,
                ) + carried(fluxes.first(), sweep.areas[N_GHOST as int]) - carried(
                    fluxes.last(),
                    sweep.areas[N_GHOST + sweep.line.len()],
                )
            },
{
    let (padded, faces) = choose|
        padded: Seq<Conserved2d<K::Real>>,
        faces: Seq<Faces<K::Real>>,
    | #[trigger]
        sweep.is_outcome(padded, faces, Ok((updated, escaped)));
    let fluxes = choose|fluxes: Seq<Conserved2d<K::Real>>|
        {
            &&& #[trigger] sweep.are_fluxes(faces, fluxes)
            &&& sweep.is_update(faces, fluxes, updated)
            &&& sweep.is_escaped(fluxes, escaped)
        };
    let n = sweep.line.len() as int;
    lemma_sweep_telescopes(sweep, faces, fluxes, updated, stored, carried, n);
    assert(updated.subrange(0, n) =~= updated);
    assert(sweep.line.subrange(0, n) =~= sweep.line);
    assert(sweep.are_faces(padded, faces));
}

/// One of the conserved densities.
pub enum Quantity2d {
    Mass,
    RadialMomentum,
    AxialMomentum,
    Energy,
}

/// How much of a quantity a state or a flux has.
pub open spec fn amount<R>(q: Quantity2d, u: Conserved2d<R>) -> R {
    match q {
        Quantity2d::Mass => u.rho,
        Quantity2d::RadialMomentum => u.mom_r,
        Quantity2d::AxialMomentum => u.mom_x,
        Quantity2d::Energy => u.energy,
    }
}

/// A measure of what the gas holds of a quantity and fluxes carry.
#[verifier::reject_recursive_types(R)]
pub struct Measure<R> {
    pub quantity: Quantity2d,
    /// What a number is worth.
    pub worth: spec_fn(R) -> real,
    /// What the axial spacing is worth.
    pub dx: real,
}

/// What a cell holds in a ring of the given volume.
#[verifier::opaque]
pub open spec fn stored_in<R>(m: Measure<R>) -> spec_fn(Conserved2d<R>, R) -> real {
    |u: Conserved2d<R>, volume: R|
        (m.worth)(amount(m.quantity, u)) * ((m.worth)(volume) * m.dx)
}

/// What a flux carries in a given time: along the radius through an interface of the
/// given area, along the axis through the end of a ring of the given volume.
#[verifier::opaque]
pub open spec fn carried_by<R>(m: Measure<R>) -> spec_fn(Dir, Conserved2d<R>, R, R) -> real {
    |dir: Dir, f: Conserved2d<R>, w: R, dt: R|
        match dir {
            Dir::Radial => (m.worth)(amount(m.quantity, f)) * (m.worth)(w) * (m.worth)(dt) * m.dx,
            Dir::Axial => (m.worth)(amount(m.quantity, f)) * (m.worth)(w) * (m.worth)(dt),
        }
}

/// What a number is worth that is to be taken times the given weight.
#[verifier::opaque]
pub open spec fn weighed<R>(m: Measure<R>) -> spec_fn(R, R) -> real {
    |w: R, x: R| (m.worth)(x) * (m.worth)(w)
}

/// The arithmetic of a scheme is exact: sums, products and the shares of a flux
/// difference are, and the unit and the axial spacing are worth what they are.
pub open spec fn is_exact_scheme<K: Scheme2d>(scheme: K, m: Measure<K::Real>) -> bool {
    &&& is_exact_in(scheme, m.worth)
    &&& forall|x: K::Real| #[trigger] call_ensures(K::one, (&scheme,), x) ==> (m.worth)(x) == 1real
    &&& forall|x: K::Real| #[trigger] call_ensures(K::dx, (&scheme,), x) ==> (m.worth)(x) == m.dx
    &&& forall|dt: K::Real, volume: K::Real, w: K::Real| #[trigger]
        call_ensures(K::weight, (&scheme, dt, volume), w) && (m.worth)(volume) != 0real ==> (
        m.worth)(w) * (m.worth)(volume) == (m.worth)(dt)
}

/// The arithmetic of a sum is exact in a measure.
spec fn adds_up<K: Scheme2d>(scheme: K, m: Measure<K::Real>) -> bool {
    &&& forall|zero: K::Real| #[trigger] call_ensures(K::zero, (&scheme,), zero) ==> (m.worth)(zero)
        == 0real
    &&& forall|zero: K::Real, w: K::Real|
        #![trigger call_ensures(K::zero, (&scheme,), zero), weighed(m)(w, zero)]
        call_ensures(K::zero, (&scheme,), zero) ==> weighed(m)(w, zero) == 0real
    &&& forall|a: K::Real, b: K::Real, c: K::Real| #[trigger]
        call_ensures(K::plus, (&scheme, a, b), c) ==> (m.worth)(c) == (m.worth)(a) + (m.worth)(b)
    &&& forall|a: K::Real, b: K::Real, c: K::Real, w: K::Real|
        #![trigger call_ensures(K::plus, (&scheme, a, b), c), weighed(m)(w, c)]
        call_ensures(K::plus, (&scheme, a, b), c) ==> weighed(m)(w, c) == weighed(m)(w, a) + weighed(m)(w, b)
    &&& forall|a: K::Real, b: K::Real, c: K::Real, w: K::Real|
        #![trigger call_ensures(K::minus, (&scheme, a, b), c), weighed(m)(w, c)]
        call_ensures(K::minus, (&scheme, a, b), c) ==> weighed(m)(w, c) == weighed(m)(w, a) - weighed(m)(w, b)
    &&& forall|a: K::Real, w: K::Real, c: K::Real| #[trigger]
        call_ensures(K::times, (&scheme, a, w), c) ==> (m.worth)(c) == weighed(m)(w, a)
}

/// The flux difference moves what is measured and creates none: along the radius
/// in the metric of the cell, along the axis in any ring.
spec fn moves<K: Scheme2d>(scheme: K, m: Measure<K::Real>) -> bool {
    &&& forall|
        dt: K::Real,
        u: Conserved2d<K::Real>,
        lo: Conserved2d<K::Real>,
        hi: Conserved2d<K::Real>,
        metric: Metric<K::Real>,
        geometric: bool,
        centre: Conserved2d<K::Real>,
        v: Conserved2d<K::Real>,
    | #[trigger]
        is_advanced(scheme, Dir::Radial, dt, u, lo, hi, metric, geometric, centre, v) && (m.worth)(
            metric.volume,
        ) != 0real ==> stored_in(m)(v, metric.volume) == stored_in(m)(u, metric.volume)
            + carried_by(m)(
            Dir::Radial,
            lo,
            metric.lower,
            dt,
        ) - carried_by(m)(Dir::Radial, hi, metric.upper, dt)
    &&& forall|
        dt: K::Real,
        u: Conserved2d<K::Real>,
        lo: Conserved2d<K::Real>,
        hi: Conserved2d<K::Real>,
        metric: Metric<K::Real>,
        centre: Conserved2d<K::Real>,
        v: Conserved2d<K::Real>,
        volume: K::Real,
    |
        #![trigger is_advanced(scheme, Dir::Axial, dt, u, lo, hi, metric, false, centre, v), stored_in(m)(v, volume)]
        is_advanced(scheme, Dir::Axial, dt, u, lo, hi, metric, false, centre, v)
            && call_ensures(K::one, (&scheme,), metric.lower) && call_ensures(
            K::one,
            (&scheme,),
            metric.upper,
        ) && call_ensures(K::dx, (&scheme,), metric.volume) ==> stored_in(m)(v, volume) == stored_in(m)(
            u,
            volume,
        ) + carried_by(m)(Dir::Axial, lo, volume, dt) - carried_by(m)(Dir::Axial, hi, volume, dt)
}

/// What the ledger books of a flux is what the flux carries.
spec fn books_leaks<K: Scheme2d>(scheme: K, m: Measure<K::Real>) -> bool {
    &&& forall|
        flux: Conserved2d<K::Real>,
        area: K::Real,
        dt: K::Real,
        q: K::Real,
        dx: K::Real,
    |
        #![trigger is_carried(scheme, flux, area, dt, q), weighed(m)(dx, q)]
        is_carried(scheme, flux, area, dt, q) && call_ensures(
            K::dx,
            (&scheme,),
            dx,
        ) ==> weighed(m)(dx, q) == carried_by(m)(Dir::Radial, flux, area, dt)
    &&& forall|
        flux: Conserved2d<K::Real>,
        one: K::Real,
        dt: K::Real,
        q: K::Real,
        volume: K::Real,
    |
        #![trigger is_carried(scheme, flux, one, dt, q), weighed(m)(volume, q)]
        is_carried(scheme, flux, one, dt, q) && call_ensures(
            K::one,
            (&scheme,),
            one,
        ) ==> weighed(m)(volume, q) == carried_by(m)(Dir::Axial, flux, volume, dt)
}

/// Where the arithmetic is exact, its sums add up in the measure.
proof fn lemma_exact_adds_up<K: Scheme2d>(scheme: K, m: Measure<K::Real>)
    requires
        is_exact_scheme(scheme, m),
    ensures
        adds_up(scheme, m),
{
    reveal(weighed);
    assert forall|a: K::Real, b: K::Real, c: K::Real, w: K::Real|
        #![trigger call_ensures(K::plus, (&scheme, a, b), c), weighed(m)(w, c)]
        call_ensures(K::plus, (&scheme, a, b), c) implies weighed(m)(w, c) == weighed(m)(w, a)
        + weighed(m)(w, b) by {
        let (x, y, z) = ((m.worth)(a), (m.worth)(b), (m.worth)(w));
        lemma_distributes(x, y, z);
    }
    assert forall|a: K::Real, b: K::Real, c: K::Real, w: K::Real|
        #![trigger call_ensures(K::minus, (&scheme, a, b), c), weighed(m)(w, c)]
        call_ensures(K::minus, (&scheme, a, b), c) implies weighed(m)(w, c) == weighed(m)(w, a)
        - weighed(m)(w, b) by {
        let (x, y, z) = ((m.worth)(a), (m.worth)(b), (m.worth)(w));
        lemma_distributes(x, y, z);
    }
}

/// Where the arithmetic is exact, the flux difference moves what is measured and
/// creates none.
proof fn lemma_exact_moves<K: Scheme2d>(scheme: K, m: Measure<K::Real>)
    requires
        is_exact_scheme(scheme, m),
        m.quantity != Quantity2d::RadialMomentum,
        m.dx != 0real,
    ensures
        moves(scheme, m),
{
    reveal(stored_in);
    reveal(carried_by);
    assert forall|
        dt: K::Real,
        u: Conserved2d<K::Real>,
        lo: Conserved2d<K::Real>,
        hi: Conserved2d<K::Real>,
        metric: Metric<K::Real>,
        geometric: bool,
        centre: Conserved2d<K::Real>,
        v: Conserved2d<K::Real>,
    | #[trigger]
        is_advanced(scheme, Dir::Radial, dt, u, lo, hi, metric, geometric, centre, v) && (m.worth)(
            metric.volume,
        ) != 0real implies stored_in(m)(v, metric.volume) == stored_in(m)(u, metric.volume)
        + carried_by(m)(Dir::Radial, lo, metric.lower, dt) - carried_by(m)(
        Dir::Radial,
        hi,
        metric.upper,
        dt,
    ) by {
        let weight = choose|weight: K::Real| #[trigger]
            call_ensures(K::weight, (&scheme, dt, metric.volume), weight) && is_weighted_update(
                scheme,
                weight,
                Dir::Radial,
                u,
                lo,
                hi,
                metric,
                geometric,
                centre,
                v,
            );
        lemma_weighted_update_moves(
            scheme,
            weight,
            Dir::Radial,
            u,
            lo,
            hi,
            metric,
            geometric,
            centre,
            v,
            m.worth,
        );
        lemma_scaled_gain(
            (m.worth)(amount(m.quantity, u)),
            (m.worth)(amount(m.quantity, v)),
            (m.worth)(weight),
            (m.worth)(metric.volume),
            (m.worth)(dt),
            (m.worth)(metric.upper),
            (m.worth)(amount(m.quantity, hi)),
            (m.worth)(metric.lower),
            (m.worth)(amount(m.quantity, lo)),
            m.dx,
        );
    }
    assert forall|
        dt: K::Real,
        u: Conserved2d<K::Real>,
        lo: Conserved2d<K::Real>,
        hi: Conserved2d<K::Real>,
        metric: Metric<K::Real>,
        centre: Conserved2d<K::Real>,
        v: Conserved2d<K::Real>,
        volume: K::Real,
    |
        #![trigger is_advanced(scheme, Dir::Axial, dt, u, lo, hi, metric, false, centre, v), stored_in(m)(v, volume)]
        is_advanced(scheme, Dir::Axial, dt, u, lo, hi, metric, false, centre, v) && call_ensures(
            K::one,
            (&scheme,),
            metric.lower,
        ) && call_ensures(K::one, (&scheme,), metric.upper) && call_ensures(
            K::dx,
            (&scheme,),
            metric.volume,
        ) implies stored_in(m)(v, volume) == stored_in(m)(u, volume) + carried_by(m)(
        Dir::Axial,
        lo,
        volume,
        dt,
    ) - carried_by(m)(Dir::Axial, hi, volume, dt) by {
        let weight = choose|weight: K::Real| #[trigger]
            call_ensures(K::weight, (&scheme, dt, metric.volume), weight) && is_weighted_update(
                scheme,
                weight,
                Dir::Axial,
                u,
                lo,
                hi,
                metric,
                false,
                centre,
                v,
            );
        lemma_weighted_update_moves(
            scheme,
            weight,
            Dir::Axial,
            u,
            lo,
            hi,
            metric,
            false,
            centre,
            v,
            m.worth,
        );
        let (x, y) = ((m.worth)(amount(m.quantity, u)), (m.worth)(amount(m.quantity, v)));
        let (a, b) = ((m.worth)(amount(m.quantity, lo)), (m.worth)(amount(m.quantity, hi)));
        let (t, c) = ((m.worth)(dt), (m.worth)(volume));
        lemma_scaled_gain(x, y, (m.worth)(weight), m.dx, t, 1real, b, 1real, a, c);
        lemma_commutes(c, m.dx);
        lemma_trades(a, t, c);
        lemma_trades(b, t, c);
    }
}

/// Where the arithmetic is exact, the ledger books the energy that a flux carries.
proof fn lemma_exact_books<K: Scheme2d>(scheme: K, m: Measure<K::Real>)
    requires
        is_exact_scheme(scheme, m),
        m.quantity == Quantity2d::Energy,
    ensures
        books_leaks(scheme, m),
{
    reveal(weighed);
    reveal(carried_by);
    assert forall|
        flux: Conserved2d<K::Real>,
        one: K::Real,
        dt: K::Real,
        q: K::Real,
        volume: K::Real,
    |
        #![trigger is_carried(scheme, flux, one, dt, q), weighed(m)(volume, q)]
        is_carried(scheme, flux, one, dt, q) && call_ensures(
            K::one,
            (&scheme,),
            one,
        ) implies weighed(m)(volume, q) == carried_by(m)(Dir::Axial, flux, volume, dt) by {
        let (f, t, c) = ((m.worth)(flux.energy), (m.worth)(dt), (m.worth)(volume));
        lemma_trades(f, t, c);
    }
}

/// What a line of cells holds of a quantity, each cell in its volume.
#[verifier::opaque]
pub open spec fn on_line<R>(q: Quantity2d, worth: spec_fn(R) -> real) -> spec_fn(
    Conserved2d<R>,
    R,
) -> real {
    |u: Conserved2d<R>, volume: R| worth(amount(q, u)) * worth(volume)
}

/// What a flux carries of a quantity through an interface of an area in a time.
#[verifier::opaque]
pub open spec fn through<R>(q: Quantity2d, worth: spec_fn(R) -> real, dt: R) -> spec_fn(
    Conserved2d<R>,
    R,
) -> real {
    |f: Conserved2d<R>, area: R| worth(amount(q, f)) * worth(area) * worth(dt)
}

/// The arithmetic of a sweep is exact: sums and products are, and so is the share of
/// a flux difference that acts on a cell, which has some volume.
pub open spec fn is_exact_sweep<K: Scheme2d>(
    sweep: Sweep<K>,
    worth: spec_fn(K::Real) -> real,
) -> bool {
    &&& is_exact_in(sweep.scheme, worth)
    &&& forall|k: int| 0 <= k < sweep.volumes.len() ==> worth(#[trigger] sweep.volumes[k]) != 0real
    &&& forall|volume: K::Real, w: K::Real| #[trigger]
        call_ensures(K::weight, (&sweep.scheme, sweep.dt, volume), w) && worth(volume) != 0real
            ==> worth(w) * worth(volume) == worth(sweep.dt)
}

/// Conservation. Over a sweep of a line, what the line holds of a quantity changes
/// by what the two end interfaces carry, and by nothing else, each cell counted by
/// its volume and each flux by the area of its interface. The fluxes are those of
/// the sweep's own reconstruction. The geometric source acts on the radial momentum
/// and on nothing else.
pub proof fn law_sweep_conserves<K: Scheme2d>(
    sweep: Sweep<K>,
    updated: Seq<Conserved2d<K::Real>>,
    escaped: K::Real,
    q: Quantity2d,
    worth: spec_fn(K::Real) -> real,
)
    requires
        sweep.valid(),
        is_line_outcome(sweep, Ok((updated, escaped))),
        is_exact_sweep(sweep, worth),
        sweep.geometric ==> q != Quantity2d::RadialMomentum,
    ensures
        exists|
            padded: Seq<Conserved2d<K::Real>>,
            faces: Seq<Faces<K::Real>>,
            fluxes: Seq<Conserved2d<K::Real>>,
        |
            {
                &&& #[trigger] sweep.are_faces(padded, faces)
                &&& #[trigger] sweep.are_fluxes(faces, fluxes)
                &&& sweep.is_update(faces, fluxes, updated)
                &&& sweep.is_escaped(fluxes, escaped)
                &&& tally(on_line(q, worth), updated, sweep.volumes) == tally(
                    on_line(q, worth),
                    sweep.line,
                    sweep.volumes,
                ) + through(q, worth, sweep.dt)(
                    fluxes.first(),
                    sweep.areas[N_GHOST as int],
                ) - through(q, worth, sweep.dt)(
                    fluxes.last(),
                    sweep.areas[N_GHOST + sweep.line.len()],
                )
            },
{
    reveal(on_line);
    reveal(through);
    let (stored, carried) = (on_line(q, worth), through(q, worth, sweep.dt));
    assert forall|
        u: Conserved2d<K::Real>,
        lo: Conserved2d<K::Real>,
        hi: Conserved2d<K::Real>,
        metric: Metric<K::Real>,
        centre: Conserved2d<K::Real>,
        v: Conserved2d<K::Real>,
    |
        sweep.has_metric(metric) && #[trigger] is_advanced(
            sweep.scheme,
            sweep.dir,
            sweep.dt,
            u,
            lo,
            hi,
            metric,
            sweep.geometric,
            centre,
            v,
        ) implies stored(v, metric.volume) == stored(u, metric.volume) + carried(lo, metric.lower)
        - carried(hi, metric.upper) by {
        let weight = choose|weight: K::Real| #[trigger]
            call_ensures(K::weight, (&sweep.scheme, sweep.dt, metric.volume), weight)
                && is_weighted_update(
                sweep.scheme,
                weight,
                sweep.dir,
                u,
                lo,
                hi,
                metric,
                sweep.geometric,
                centre,
                v,
            );
        let i = choose|k: int|
            N_GHOST <= k < N_GHOST + sweep.line.len() && metric == #[trigger] metric_at(
                sweep.areas,
                sweep.volumes,
                k,
            );
        assert(worth(sweep.volumes[i]) != 0real);
        lemma_weighted_update_moves(
            sweep.scheme,
            weight,
            sweep.dir,
            u,
            lo,
            hi,
            metric,
            sweep.geometric,
            centre,
            v,
            worth,
        );
        lemma_scaled_gain(
            worth(amount(q, u)),
            worth(amount(q, v)),
            worth(weight),
            worth(metric.volume),
            worth(sweep.dt),
            worth(metric.upper),
            worth(amount(q, hi)),
            worth(metric.lower),
            worth(amount(q, lo)),
            1real,
        );
    }
    lemma_sweep_conserves(sweep, updated, escaped, stored, carried);
}

/// What a line with transmissive ends loses of its energy is what is reported as
/// having crossed its two ends, with or without the geometric source.
pub proof fn law_line_loses_what_escapes<K: Scheme2d>(
    sweep: Sweep<K>,
    updated: Seq<Conserved2d<K::Real>>,
    escaped: K::Real,
    worth: spec_fn(K::Real) -> real,
)
    requires
        sweep.valid(),
        sweep.lo == Boundary2d::Transmissive,
        sweep.hi == Boundary2d::Transmissive,
        is_line_outcome(sweep, Ok((updated, escaped))),
        is_exact_sweep(sweep, worth),
    ensures
        updated.len() == sweep.line.len(),
        tally(on_line(Quantity2d::Energy, worth), updated, sweep.volumes) == tally(
            on_line(Quantity2d::Energy, worth),
            sweep.line,
            sweep.volumes,
        ) - worth(escaped),
{
    law_sweep_conserves(sweep, updated, escaped, Quantity2d::Energy, worth);
    let (stored, carried) = (
        on_line(Quantity2d::Energy, worth),
        through(Quantity2d::Energy, worth, sweep.dt),
    );
    let (padded, faces, fluxes) = choose|
        padded: Seq<Conserved2d<K::Real>>,
        faces: Seq<Faces<K::Real>>,
        fluxes: Seq<Conserved2d<K::Real>>,
    |
        {
            &&& #[trigger] sweep.are_faces(padded, faces)
            &&& #[trigger] sweep.are_fluxes(faces, fluxes)
            &&& sweep.is_update(faces, fluxes, updated)
            &&& sweep.is_escaped(fluxes, escaped)
            &&& tally(stored, updated, sweep.volumes) == tally(stored, sweep.line, sweep.volumes)
                + carried(fluxes.first(), sweep.areas[N_GHOST as int]) - carried(
                fluxes.last(),
                sweep.areas[N_GHOST + sweep.line.len()],
            )
        };
    let n = sweep.line.len() as int;
    assert(fluxes.first() == fluxes[0] && fluxes.last() == fluxes[n]);
    reveal(through);
    let k = sweep.scheme;
    let (a0, an) = (sweep.areas[N_GHOST as int], sweep.areas[N_GHOST + n]);
    let (zero, low) = choose|zero: K::Real, low: K::Real|
        {
            &&& #[trigger] call_ensures(K::zero, (&k,), zero)
            &&& #[trigger] is_leak(sweep, sweep.lo, zero, fluxes[0], a0, false, low)
            &&& is_leak(sweep, sweep.hi, low, fluxes[n], an, true, escaped)
        };
    let p = choose|q: K::Real| #[trigger]
        is_carried(k, fluxes[0], a0, sweep.dt, q) && call_ensures(K::minus, (&k, zero, q), low);
    let q = choose|q: K::Real| #[trigger]
        is_carried(k, fluxes[n], an, sweep.dt, q) && call_ensures(K::plus, (&k, low, q), escaped);
    assert(worth(p) == carried(fluxes[0], a0));
    assert(worth(q) == carried(fluxes[n], an));
}

/// There is gas on both sides of the mirroring ends of a sweep: the faces there, as
/// the sweep reconstructs them, have a density and a pressure above zero.
#[verifier::opaque]
pub open spec fn ends_hold_gas<K: Scheme2d>(
    sweep: Sweep<K>,
    worth: spec_fn(K::Real) -> real,
) -> bool {
    let n = sweep.line.len() as int;
    forall|padded: Seq<Conserved2d<K::Real>>, faces: Seq<Faces<K::Real>>| #[trigger]
        sweep.are_faces(padded, faces) ==> {
            &&& sweep.lo.spec_mirrors() ==> is_gas2d(
                sweep.scheme,
                worth,
                sweep.dir,
                faces[0].right,
            ) && is_gas2d(sweep.scheme, worth, sweep.dir, faces[1].left)
            &&& sweep.hi.spec_mirrors() ==> is_gas2d(
                sweep.scheme,
                worth,
                sweep.dir,
                faces[n].right,
            ) && is_gas2d(sweep.scheme, worth, sweep.dir, faces[n + 1].left)
        }
}

/// What a flux is said to carry is nothing where the flux is at rest.
pub open spec fn needs_flow<R: Copy>(
    worth: spec_fn(R) -> real,
    dir: Dir,
    carried: spec_fn(Conserved2d<R>, R) -> real,
) -> bool {
    forall|flux: Conserved2d<R>, w: R|
        is_at_rest(worth, dir, flux) ==> #[trigger] carried(flux, w) == 0real
}

/// Nothing crosses a mirroring end of a sweep.
proof fn lemma_walls_are_tight<K: Scheme2d>(
    sweep: Sweep<K>,
    padded: Seq<Conserved2d<K::Real>>,
    faces: Seq<Faces<K::Real>>,
    fluxes: Seq<Conserved2d<K::Real>>,
    carried: spec_fn(Conserved2d<K::Real>, K::Real) -> real,
    worth: spec_fn(K::Real) -> real,
)
    requires
        sweep.valid(),
        sweep.flips,
        sweep.geometric ==> sweep.dir == Dir::Radial,
        sweep.has_mirrored_ends(),
        sweep.are_faces(padded, faces),
        sweep.are_fluxes(faces, fluxes),
        reflects(sweep.scheme, worth),
        ends_hold_gas(sweep, worth),
        needs_flow(worth, sweep.dir, carried),
    ensures
        sweep.lo.spec_mirrors() ==> carried(fluxes[0], sweep.areas[N_GHOST as int]) == 0real,
        sweep.hi.spec_mirrors() ==> carried(
            fluxes[sweep.line.len() as int],
            sweep.areas[N_GHOST + sweep.line.len()],
        ) == 0real,
{
    let (k, dir, line) = (sweep.scheme, sweep.dir, sweep.line);
    let n = line.len() as int;
    assert(sweep.lo.spec_mirrors() ==> is_gas2d(k, worth, dir, faces[0].right) && is_gas2d(
        k,
        worth,
        dir,
        faces[1].left,
    )) by {
        reveal(ends_hold_gas);
    }
    assert(sweep.hi.spec_mirrors() ==> is_gas2d(k, worth, dir, faces[n].right) && is_gas2d(
        k,
        worth,
        dir,
        faces[n + 1].left,
    )) by {
        reveal(ends_hold_gas);
    }
    let inner = padded.subrange(N_GHOST as int, N_GHOST + n);
    assert(inner[0] == line[0] && inner[1] == line[1]);
    assert(inner[n - 1] == line[n - 1] && inner[n - 2] == line[n - 2]);
    assert(inner[0] == padded[2] && inner[1] == padded[3]);
    assert(inner[n - 1] == padded[n + 1] && inner[n - 2] == padded[n]);
    if sweep.lo.spec_mirrors() {
        assert(is_mirror(k, dir, true, line[0], padded[1]));
        assert(is_mirror(k, dir, true, line[1], padded[0]));
        lemma_mirror_is_image(k, worth, dir, line[0], padded[1]);
        lemma_mirror_is_image(k, worth, dir, line[1], padded[0]);
        let (f, g) = (faces[1], faces[0]);
        let metric = metric_at(sweep.areas, sweep.volumes, 2);
        assert(are_cell_faces(
            k,
            dir,
            sweep.dt,
            padded[1],
            padded[2],
            padded[3],
            metric,
            sweep.geometric,
            f,
        ));
        assert(are_cell_faces(
            k,
            dir,
            sweep.dt,
            padded[0],
            padded[1],
            padded[2],
            turned(metric),
            sweep.geometric,
            g,
        ));
        law_wall_mirrors_the_faces(
            k,
            worth,
            dir,
            sweep.dt,
            (padded[1], padded[2], padded[3]),
            (padded[2], padded[1], padded[0]),
            metric,
            sweep.geometric,
            f,
            g,
        );
        assert(is_dir_hllc(k, faces[0].right, faces[1].left, dir, fluxes[0]));
        law_wall_lets_nothing_through(k, worth, dir, g.right, f.left, fluxes[0]);
    }
    if sweep.hi.spec_mirrors() {
        assert(is_mirror(k, dir, true, line[n - 1], padded[n + 2]));
        assert(is_mirror(k, dir, true, line[n - 2], padded[n + 3]));
        lemma_mirror_is_image(k, worth, dir, line[n - 1], padded[n + 2]);
        lemma_mirror_is_image(k, worth, dir, line[n - 2], padded[n + 3]);
        let (f, g) = (faces[n], faces[n + 1]);
        let metric = metric_at(sweep.areas, sweep.volumes, n + 1);
        assert(are_cell_faces(
            k,
            dir,
            sweep.dt,
            padded[n],
            padded[n + 1],
            padded[n + 2],
            metric,
            sweep.geometric,
            f,
        ));
        assert(are_cell_faces(
            k,
            dir,
            sweep.dt,
            padded[n + 1],
            padded[n + 2],
            padded[n + 3],
            turned(metric),
            sweep.geometric,
            g,
        ));
        law_wall_mirrors_the_faces(
            k,
            worth,
            dir,
            sweep.dt,
            (padded[n], padded[n + 1], padded[n + 2]),
            (padded[n + 3], padded[n + 2], padded[n + 1]),
            metric,
            sweep.geometric,
            f,
            g,
        );
        assert(is_dir_hllc(k, faces[n].right, faces[n + 1].left, dir, fluxes[n]));
        law_wall_lets_nothing_through(k, worth, dir, f.right, g.left, fluxes[n]);
    }
}

/// What a line gains and what it lets escape add up to nothing.
proof fn lemma_line_balances<K: Scheme2d>(
    sweep: Sweep<K>,
    updated: Seq<Conserved2d<K::Real>>,
    escaped: K::Real,
    stored: spec_fn(Conserved2d<K::Real>, K::Real) -> real,
    carried: spec_fn(Conserved2d<K::Real>, K::Real) -> real,
    m: Measure<K::Real>,
    w: K::Real,
)
    requires
        sweep.valid(),
        sweep.flips,
        sweep.has_mirrored_ends(),
        is_line_outcome(sweep, Ok((updated, escaped))),
        moves_only(sweep, stored, carried),
        sweep.geometric ==> sweep.dir == Dir::Radial,
        reflects(sweep.scheme, m.worth),
        ends_hold_gas(sweep, m.worth),
        needs_flow(m.worth, sweep.dir, carried),
        adds_up(sweep.scheme, m),
        sweep.is_open() ==> forall|flux: Conserved2d<K::Real>, area: K::Real, q: K::Real|
            #[trigger] is_carried(sweep.scheme, flux, area, sweep.dt, q) && (area
                == sweep.areas[N_GHOST as int] || area == sweep.areas[N_GHOST + sweep.line.len()])
                ==> weighed(m)(w, q) == carried(flux, area),
    ensures
        updated.len() == sweep.line.len(),
        tally(stored, updated, sweep.volumes) + weighed(m)(w, escaped) == tally(
            stored,
            sweep.line,
            sweep.volumes,
        ),
        !sweep.is_open() ==> weighed(m)(w, escaped) == 0real,
{
    lemma_sweep_conserves(sweep, updated, escaped, stored, carried);
    let (padded, faces, fluxes) = choose|
        padded: Seq<Conserved2d<K::Real>>,
        faces: Seq<Faces<K::Real>>,
        fluxes: Seq<Conserved2d<K::Real>>,
    |
        {
            &&& #[trigger] sweep.are_faces(padded, faces)
            &&& #[trigger] sweep.are_fluxes(faces, fluxes)
            &&& sweep.is_update(faces, fluxes, updated)
            &&& sweep.is_escaped(fluxes, escaped)
            &&& tally(stored, updated, sweep.volumes) == tally(stored, sweep.line, sweep.volumes)
                + carried(fluxes.first(), sweep.areas[N_GHOST as int]) - carried(
                fluxes.last(),
                sweep.areas[N_GHOST + sweep.line.len()],
            )
        };
    lemma_walls_are_tight(sweep, padded, faces, fluxes, carried, m.worth);
    let n = sweep.line.len() as int;
    let (zero, low) = choose|zero: K::Real, low: K::Real|
        {
            &&& #[trigger] call_ensures(K::zero, (&sweep.scheme,), zero)
            &&& #[trigger] is_leak(
                sweep,
                sweep.lo,
                zero,
                fluxes[0],
                sweep.areas[N_GHOST as int],
                false,
                low,
            )
            &&& is_leak(
                sweep,
                sweep.hi,
                low,
                fluxes[n],
                sweep.areas[N_GHOST + n],
                true,
                escaped,
            )
        };
    assert(weighed(m)(w, zero) == 0real);
    assert(sweep.lo == Boundary2d::Transmissive <==> !sweep.lo.spec_mirrors());
    assert(sweep.hi == Boundary2d::Transmissive <==> !sweep.hi.spec_mirrors());
    assert(weighed(m)(w, low) == -carried(fluxes[0], sweep.areas[N_GHOST as int])) by {
        if sweep.lo == Boundary2d::Transmissive {
            let q = choose|q: K::Real|
                {
                    &&& #[trigger] is_carried(
                        sweep.scheme,
                        fluxes[0],
                        sweep.areas[N_GHOST as int],
                        sweep.dt,
                        q,
                    )
                    &&& call_ensures(K::minus, (&sweep.scheme, zero, q), low)
                };
            assert(weighed(m)(w, low) == weighed(m)(w, zero) - weighed(m)(w, q));
        }
    }
    if sweep.hi == Boundary2d::Transmissive {
        let q = choose|q: K::Real|
            {
                &&& #[trigger] is_carried(
                    sweep.scheme,
                    fluxes[n],
                    sweep.areas[N_GHOST + n],
                    sweep.dt,
                    q,
                )
                &&& call_ensures(K::plus, (&sweep.scheme, low, q), escaped)
            };
        assert(weighed(m)(w, escaped) == weighed(m)(w, low) + weighed(m)(w, q));
    }
    assert(fluxes.first() == fluxes[0] && fluxes.last() == fluxes[n]);
}

/// What a cell holds in a ring of the given volume.
pub open spec fn in_volume<R>(m: Measure<R>, volume: R) -> spec_fn(Conserved2d<R>) -> real {
    |u: Conserved2d<R>| stored_in(m)(u, volume)
}

/// What the first `n` rings hold, each cell in the volume of its ring.
pub open spec fn held<R>(
    m: Measure<R>,
    cells: Seq<Seq<Conserved2d<R>>>,
    volumes: Seq<R>,
    n: int,
) -> real
    decreases n,
{
    if n <= 0 {
        0real
    } else {
        held(m, cells, volumes, n - 1) + crate::euler1d::tally(
            in_volume(m, volumes[N_GHOST + n - 1]),
            cells[n - 1],
        )
    }
}

/// What the whole domain holds.
pub open spec fn holding<K: Scheme2d>(m: Measure<K::Real>, d: Domain2d<K>) -> real {
    held(m, d.cells, d.volumes, d.cells.len() as int)
}

/// The same measure of a cell whatever volume is named.
spec fn in_one_volume<R>(m: Measure<R>, volume: R) -> spec_fn(Conserved2d<R>, R) -> real {
    |u: Conserved2d<R>, v: R| stored_in(m)(u, volume)
}

proof fn lemma_ring_tally<R>(
    m: Measure<R>,
    volume: R,
    line: Seq<Conserved2d<R>>,
    volumes: Seq<R>,
)
    ensures
        tally(in_one_volume(m, volume), line, volumes) == crate::euler1d::tally(
            in_volume(m, volume),
            line,
        ),
    decreases line.len(),
{
    if line.len() > 0 {
        lemma_ring_tally(m, volume, line.drop_last(), volumes);
    }
}

/// What the first `w` cells of the first `n` rings hold.
spec fn held_within<R>(
    m: Measure<R>,
    cells: Seq<Seq<Conserved2d<R>>>,
    volumes: Seq<R>,
    n: int,
    w: int,
) -> real
    decreases n,
{
    if n <= 0 {
        0real
    } else {
        held_within(m, cells, volumes, n - 1, w) + crate::euler1d::tally(
            in_volume(m, volumes[N_GHOST + n - 1]),
            cells[n - 1].subrange(0, w),
        )
    }
}

proof fn lemma_held_within_all<R>(
    m: Measure<R>,
    cells: Seq<Seq<Conserved2d<R>>>,
    volumes: Seq<R>,
    n: int,
    w: int,
)
    requires
        0 <= n <= cells.len(),
        forall|j: int| 0 <= j < cells.len() ==> #[trigger] cells[j].len() == w,
    ensures
        held_within(m, cells, volumes, n, w) == held(m, cells, volumes, n),
    decreases n,
{
    if n > 0 {
        lemma_held_within_all(m, cells, volumes, n - 1, w);
        assert(cells[n - 1].len() == w);
        assert(cells[n - 1].subrange(0, w) =~= cells[n - 1]);
    }
}

proof fn lemma_held_within_none<R>(
    m: Measure<R>,
    cells: Seq<Seq<Conserved2d<R>>>,
    volumes: Seq<R>,
    n: int,
)
    requires
        0 <= n <= cells.len(),
    ensures
        held_within(m, cells, volumes, n, 0) == 0real,
    decreases n,
{
    if n > 0 {
        lemma_held_within_none(m, cells, volumes, n - 1);
        assert(cells[n - 1].subrange(0, 0).len() == 0);
    }
}

/// One more column adds what that column holds.
proof fn lemma_one_more_column<R>(
    m: Measure<R>,
    cells: Seq<Seq<Conserved2d<R>>>,
    volumes: Seq<R>,
    n: int,
    w: int,
)
    requires
        0 <= n <= cells.len(),
        0 <= w,
        forall|j: int| 0 <= j < cells.len() ==> w < #[trigger] cells[j].len(),
    ensures
        held_within(m, cells, volumes, n, w + 1) == held_within(m, cells, volumes, n, w) + tally(
            stored_in(m),
            column_of(cells, w).subrange(0, n),
            volumes,
        ),
    decreases n,
{
    let column = column_of(cells, w);
    if n > 0 {
        let row = cells[n - 1];
        lemma_one_more_column(m, cells, volumes, n - 1, w);
        assert(w < row.len());
        assert(row.subrange(0, w + 1).drop_last() =~= row.subrange(0, w));
        assert(row.subrange(0, w + 1).last() == row[w]);
        assert(column.subrange(0, n).drop_last() =~= column.subrange(0, n - 1));
        assert(column.subrange(0, n).last() == column[n - 1]);
        assert(column[n - 1] == row[w]);
    } else {
        assert(column.subrange(0, 0).len() == 0);
    }
}

/// The mesh beyond a mirroring edge of the radius is the mirrored mesh.
pub open spec fn has_mirrored_walls<K: Scheme2d>(d: Domain2d<K>) -> bool {
    let n = d.cells.len() as int;
    &&& d.bc_r_min.spec_mirrors() ==> metric_at(d.areas, d.volumes, N_GHOST - 1) == turned(
        metric_at(d.areas, d.volumes, N_GHOST as int),
    )
    &&& d.bc_r_max.spec_mirrors() ==> metric_at(d.areas, d.volumes, N_GHOST + n) == turned(
        metric_at(d.areas, d.volumes, N_GHOST + n - 1),
    )
}

/// What a measure carries along a direction in a given time.
pub open spec fn carried_along<R>(m: Measure<R>, dir: Dir, dt: R) -> spec_fn(
    Conserved2d<R>,
    R,
) -> real {
    |flux: Conserved2d<R>, w: R| carried_by(m)(dir, flux, w, dt)
}

/// The momentum along a direction, which a wall across it does push.
pub open spec fn is_pushed_by_walls(q: Quantity2d, dir: Dir) -> bool {
    match dir {
        Dir::Radial => q == Quantity2d::RadialMomentum,
        Dir::Axial => q == Quantity2d::AxialMomentum,
    }
}

/// Nothing of what is measured crosses a mirroring wall along a direction: the
/// operations of the scheme see images alike, and a wall does not push it.
pub open spec fn stops_at_walls<K: Scheme2d>(scheme: K, m: Measure<K::Real>, dir: Dir) -> bool {
    &&& reflects(scheme, m.worth)
    &&& !is_pushed_by_walls(m.quantity, dir)
}

/// There is gas at the radial walls of a domain, in every column.
pub open spec fn columns_hold_gas<K: Scheme2d>(
    d: Domain2d<K>,
    dt: K::Real,
    worth: spec_fn(K::Real) -> real,
) -> bool {
    forall|i: int|
        0 <= i < d.n_x ==> ends_hold_gas(#[trigger] radial_sweep(d, dt, true, true, i), worth)
}

/// There is gas at the axial walls of a domain, in every row.
pub open spec fn rows_hold_gas<K: Scheme2d>(
    d: Domain2d<K>,
    dt: K::Real,
    worth: spec_fn(K::Real) -> real,
) -> bool {
    forall|one: K::Real, dx: K::Real, j: int|
        0 <= j < d.cells.len() ==> ends_hold_gas(#[trigger] axial_sweep(d, dt, one, dx, j), worth)
}

/// There is gas at the radial walls in both radial sweeps of a step.
pub open spec fn radial_walls_hold_gas<K: Scheme2d>(
    pre: Domain2d<K>,
    dt: K::Real,
    post: Domain2d<K>,
    worth: spec_fn(K::Real) -> real,
) -> bool {
    forall|half: K::Real, a: Domain2d<K>, b: Domain2d<K>, c: Domain2d<K>, d: Domain2d<K>| #[trigger]
        is_split_step(pre, dt, true, true, half, a, b, c, d, post, Ok(())) ==> columns_hold_gas(
            pre,
            half,
            worth,
        ) && columns_hold_gas(b, half, worth)
}

/// There is gas at the walls in every sweep of a step.
pub open spec fn walls_hold_gas<K: Scheme2d>(
    pre: Domain2d<K>,
    dt: K::Real,
    post: Domain2d<K>,
    worth: spec_fn(K::Real) -> real,
) -> bool {
    &&& radial_walls_hold_gas(pre, dt, post, worth)
    &&& forall|half: K::Real, a: Domain2d<K>, b: Domain2d<K>, c: Domain2d<K>, d: Domain2d<K>|
        #[trigger] is_split_step(pre, dt, true, true, half, a, b, c, d, post, Ok(()))
            ==> rows_hold_gas(a, dt, worth)
}

/// A flux at rest carries none of a quantity that walls do not push.
proof fn lemma_rest_carries_nothing<R: Copy>(m: Measure<R>, dir: Dir, dt: R)
    requires
        !is_pushed_by_walls(m.quantity, dir),
    ensures
        needs_flow(m.worth, dir, carried_along(m, dir, dt)),
{
    let carried = carried_along(m, dir, dt);
    assert forall|flux: Conserved2d<R>, w: R|
        is_at_rest(m.worth, dir, flux) implies #[trigger] carried(flux, w) == 0real by {
        reveal(carried_by);
        let (x, t) = ((m.worth)(w), (m.worth)(dt));
        assert((m.worth)(amount(m.quantity, flux)) == 0real) by {
            match dir {
                Dir::Radial => {},
                Dir::Axial => {},
            }
        }
        assert(0real * x == 0real && 0real * t == 0real && 0real * m.dx == 0real);
    }
}

/// An edge of the domain is transmissive.
pub open spec fn is_open_domain<K: Scheme2d>(d: Domain2d<K>) -> bool {
    ||| d.bc_r_min == Boundary2d::Transmissive
    ||| d.bc_r_max == Boundary2d::Transmissive
    ||| d.bc_x_min == Boundary2d::Transmissive
    ||| d.bc_x_max == Boundary2d::Transmissive
}

proof fn lemma_columns_balance<K: Scheme2d>(
    pre: Domain2d<K>,
    dt: K::Real,
    dx: K::Real,
    lines: Seq<(Seq<Conserved2d<K::Real>>, K::Real)>,
    run: Seq<K::Real>,
    m: Measure<K::Real>,
    w: int,
)
    requires
        pre.valid(),
        has_mirrored_walls(pre),
        call_ensures(K::dx, (&pre.scheme,), dx),
        are_swept(pre.scheme, radial_sweeps(pre, dt, true, true), same_weight(dx), lines, run),
        lines.len() == pre.n_x,
        0 <= w <= lines.len(),
        adds_up(pre.scheme, m),
        moves(pre.scheme, m),
        has_extent(pre, m),
        stops_at_walls(pre.scheme, m, Dir::Radial),
        columns_hold_gas(pre, dt, m.worth),
        pre.bc_r_min == Boundary2d::Transmissive || pre.bc_r_max == Boundary2d::Transmissive
            ==> books_leaks(pre.scheme, m),
    ensures
        held_within(
            m,
            with_columns(pre.cells, lines),
            pre.volumes,
            pre.cells.len() as int,
            w,
        ) + (m.worth)(run[w]) == held_within(
            m,
            pre.cells,
            pre.volumes,
            pre.cells.len() as int,
            w,
        ),
        pre.bc_r_min != Boundary2d::Transmissive && pre.bc_r_max != Boundary2d::Transmissive
            ==> (m.worth)(run[w]) == 0real,
    decreases w,
{
    let n = pre.cells.len() as int;
    let after = with_columns(pre.cells, lines);
    if w > 0 {
        let i = w - 1;
        lemma_columns_balance(pre, dt, dx, lines, run, m, i);
        let sweep = radial_sweep(pre, dt, true, true, i);
        let (updated, escaped) = lines[i];
        assert(is_line_outcome(radial_sweeps(pre, dt, true, true)(i), Ok(lines[i])));
        assert(is_weighted_sum(pre.scheme, run[i], escaped, same_weight(dx)(i), run[i + 1]));
        let carried = carried_along(m, Dir::Radial, dt);
        assert(sweep.valid());
        assert(sweep.has_mirrored_ends());
        assert(moves_only(sweep, stored_in(m), carried));
        lemma_rest_carries_nothing(m, Dir::Radial, dt);
        lemma_line_balances(sweep, updated, escaped, stored_in(m), carried, m, dx);
        assert forall|j: int| 0 <= j < n implies i < #[trigger] pre.cells[j].len() by {}
        assert forall|j: int| 0 <= j < n implies i < #[trigger] after[j].len() by {
            assert(pre.cells[j].len() == pre.n_x);
        }
        lemma_one_more_column(m, pre.cells, pre.volumes, n, i);
        lemma_one_more_column(m, after, pre.volumes, n, i);
        assert(column_of(pre.cells, i).subrange(0, n) =~= sweep.line);
        assert(column_of(after, i).subrange(0, n) =~= updated) by {
            assert forall|j: int| 0 <= j < n implies column_of(after, i)[j] == updated[j] by {
                assert(pre.cells[j].len() == pre.n_x);
            }
        }
        let q = choose|q: K::Real|
            #[trigger] call_ensures(K::times, (&pre.scheme, escaped, dx), q) && call_ensures(
                K::plus,
                (&pre.scheme, run[i], q),
                run[i + 1],
            );
        assert((m.worth)(q) == weighed(m)(dx, escaped));
    } else {
        lemma_held_within_none(m, pre.cells, pre.volumes, n);
        lemma_held_within_none(m, after, pre.volumes, n);
    }
}

proof fn lemma_rows_balance<K: Scheme2d>(
    pre: Domain2d<K>,
    dt: K::Real,
    one: K::Real,
    dx: K::Real,
    lines: Seq<(Seq<Conserved2d<K::Real>>, K::Real)>,
    run: Seq<K::Real>,
    m: Measure<K::Real>,
    n: int,
)
    requires
        pre.valid(),
        call_ensures(K::one, (&pre.scheme,), one),
        call_ensures(K::dx, (&pre.scheme,), dx),
        are_swept(
            pre.scheme,
            axial_sweeps(pre, dt, one, dx),
            ring_weights(pre),
            lines,
            run,
        ),
        lines.len() == pre.cells.len(),
        0 <= n <= lines.len(),
        adds_up(pre.scheme, m),
        moves(pre.scheme, m),
        has_extent(pre, m),
        stops_at_walls(pre.scheme, m, Dir::Axial),
        rows_hold_gas(pre, dt, m.worth),
        pre.bc_x_min == Boundary2d::Transmissive || pre.bc_x_max == Boundary2d::Transmissive
            ==> books_leaks(pre.scheme, m),
    ensures
        held(m, with_rows(pre.cells, lines), pre.volumes, n) + (m.worth)(run[n]) == held(
            m,
            pre.cells,
            pre.volumes,
            n,
        ),
        pre.bc_x_min != Boundary2d::Transmissive && pre.bc_x_max != Boundary2d::Transmissive
            ==> (m.worth)(run[n]) == 0real,
        forall|j: int| 0 <= j < n ==> (#[trigger] lines[j]).0.len() == pre.n_x,
    decreases n,
{
    if n > 0 {
        let j = n - 1;
        lemma_rows_balance(pre, dt, one, dx, lines, run, m, j);
        let sweep = axial_sweep(pre, dt, one, dx, j);
        let (updated, escaped) = lines[j];
        let volume = pre.volumes[N_GHOST + j];
        assert(is_line_outcome(axial_sweeps(pre, dt, one, dx)(j), Ok(lines[j])));
        assert(is_weighted_sum(pre.scheme, run[j], escaped, ring_weights(pre)(j), run[j + 1]));
        let stored = in_one_volume(m, volume);
        let along = carried_along(m, Dir::Axial, dt);
        let carried = |flux: Conserved2d<K::Real>, w: K::Real| along(flux, volume);
        assert(pre.cells[j].len() == pre.n_x);
        assert(sweep.valid());
        assert(sweep.has_mirrored_ends());
        lemma_rest_carries_nothing(m, Dir::Axial, dt);
        assert(needs_flow(m.worth, Dir::Axial, carried)) by {
            assert forall|flux: Conserved2d<K::Real>, w: K::Real|
                is_at_rest(m.worth, Dir::Axial, flux) implies #[trigger] carried(flux, w)
                == 0real by {
                assert(along(flux, volume) == 0real);
            }
        }
        assert(moves_only(sweep, stored, carried)) by {
            assert forall|
                u: Conserved2d<K::Real>,
                lo: Conserved2d<K::Real>,
                hi: Conserved2d<K::Real>,
                metric: Metric<K::Real>,
                centre: Conserved2d<K::Real>,
                v: Conserved2d<K::Real>,
            |
                sweep.has_metric(metric) && #[trigger] is_advanced(
                    sweep.scheme,
                    sweep.dir,
                    sweep.dt,
                    u,
                    lo,
                    hi,
                    metric,
                    sweep.geometric,
                    centre,
                    v,
                ) implies stored(v, metric.volume) == stored(u, metric.volume) + carried(
                lo,
                metric.lower,
            ) - carried(hi, metric.upper) by {
                assert(metric.lower == one && metric.upper == one && metric.volume == dx);
                assert(stored_in(m)(v, volume) == stored(v, metric.volume));
            }
        }
        lemma_line_balances(sweep, updated, escaped, stored, carried, m, volume);
        lemma_ring_tally(m, volume, sweep.line, sweep.volumes);
        lemma_ring_tally(m, volume, updated, sweep.volumes);
        let q = choose|q: K::Real|
            #[trigger] call_ensures(K::times, (&pre.scheme, escaped, volume), q) && call_ensures(
                K::plus,
                (&pre.scheme, run[j], q),
                run[j + 1],
            );
        assert((m.worth)(q) == weighed(m)(volume, escaped));
    }
}

/// What a domain holds and what has escaped from it add up to the same before and
/// after; where no edge of the direction is transmissive, each stays.
spec fn is_balanced<K: Scheme2d>(
    m: Measure<K::Real>,
    pre: Domain2d<K>,
    post: Domain2d<K>,
    is_open: bool,
) -> bool {
    &&& holding(m, post) + (m.worth)(post.escaped) == holding(m, pre) + (m.worth)(pre.escaped)
    &&& !is_open ==> (m.worth)(post.escaped) == (m.worth)(pre.escaped)
}

proof fn lemma_r_sweep_balances<K: Scheme2d>(
    pre: Domain2d<K>,
    dt: K::Real,
    post: Domain2d<K>,
    m: Measure<K::Real>,
)
    requires
        pre.valid(),
        has_mirrored_walls(pre),
        is_r_sweep(pre, dt, true, true, post, Ok(())),
        adds_up(pre.scheme, m),
        moves(pre.scheme, m),
        has_extent(pre, m),
        stops_at_walls(pre.scheme, m, Dir::Radial),
        columns_hold_gas(pre, dt, m.worth),
        pre.bc_r_min == Boundary2d::Transmissive || pre.bc_r_max == Boundary2d::Transmissive
            ==> books_leaks(pre.scheme, m),
    ensures
        post.valid(),
        post == (Domain2d { cells: post.cells, escaped: post.escaped, ..pre }),
        post.cells.len() == pre.cells.len(),
        is_balanced(
            m,
            pre,
            post,
            pre.bc_r_min == Boundary2d::Transmissive || pre.bc_r_max == Boundary2d::Transmissive,
        ),
{
    let (dx, lines, run) = choose|
        dx: K::Real,
        lines: Seq<(Seq<Conserved2d<K::Real>>, K::Real)>,
        run: Seq<K::Real>,
    |
        {
            &&& #[trigger] call_ensures(K::dx, (&pre.scheme,), dx)
            &&& #[trigger] are_swept(
                pre.scheme,
                radial_sweeps(pre, dt, true, true),
                same_weight(dx),
                lines,
                run,
            )
            &&& is_sweep_end(
                pre,
                radial_sweeps(pre, dt, true, true),
                pre.n_x as int,
                with_columns(pre.cells, lines),
                lines,
                run,
                post,
                Ok(()),
            )
        };
    let (n, w) = (pre.cells.len() as int, pre.n_x as int);
    lemma_columns_balance(pre, dt, dx, lines, run, m, w);
    lemma_held_within_all(m, pre.cells, pre.volumes, n, w);
    assert forall|j: int| 0 <= j < post.cells.len() implies #[trigger] post.cells[j].len() == w by {
        assert(pre.cells[j].len() == pre.n_x);
    }
    lemma_held_within_all(m, post.cells, pre.volumes, n, w);
    assert(run.last() == run[w]);
}

proof fn lemma_x_sweep_balances<K: Scheme2d>(
    pre: Domain2d<K>,
    dt: K::Real,
    post: Domain2d<K>,
    m: Measure<K::Real>,
)
    requires
        pre.valid(),
        is_x_sweep(pre, dt, post, Ok(())),
        adds_up(pre.scheme, m),
        moves(pre.scheme, m),
        has_extent(pre, m),
        stops_at_walls(pre.scheme, m, Dir::Axial),
        rows_hold_gas(pre, dt, m.worth),
        pre.bc_x_min == Boundary2d::Transmissive || pre.bc_x_max == Boundary2d::Transmissive
            ==> books_leaks(pre.scheme, m),
    ensures
        post.valid(),
        post == (Domain2d { cells: post.cells, escaped: post.escaped, ..pre }),
        post.cells.len() == pre.cells.len(),
        is_balanced(
            m,
            pre,
            post,
            pre.bc_x_min == Boundary2d::Transmissive || pre.bc_x_max == Boundary2d::Transmissive,
        ),
{
    let (one, dx, lines, run) = choose|
        one: K::Real,
        dx: K::Real,
        lines: Seq<(Seq<Conserved2d<K::Real>>, K::Real)>,
        run: Seq<K::Real>,
    |
        {
            &&& #[trigger] call_ensures(K::one, (&pre.scheme,), one)
            &&& #[trigger] call_ensures(K::dx, (&pre.scheme,), dx)
            &&& #[trigger] are_swept(
                pre.scheme,
                axial_sweeps(pre, dt, one, dx),
                ring_weights(pre),
                lines,
                run,
            )
            &&& is_sweep_end(
                pre,
                axial_sweeps(pre, dt, one, dx),
                pre.cells.len() as int,
                with_rows(pre.cells, lines),
                lines,
                run,
                post,
                Ok(()),
            )
        };
    let n = pre.cells.len() as int;
    lemma_rows_balance(pre, dt, one, dx, lines, run, m, n);
    assert forall|j: int| 0 <= j < post.cells.len() implies #[trigger] post.cells[j].len()
        == pre.n_x by {
        assert(lines[j].0.len() == pre.n_x);
    }
    assert(run.last() == run[n]);
}

/// Every ring of the mesh has some volume, and so has an axial cell.
pub open spec fn has_extent<K: Scheme2d>(d: Domain2d<K>, m: Measure<K::Real>) -> bool {
    &&& m.dx != 0real
    &&& forall|k: int| 0 <= k < d.volumes.len() ==> (m.worth)(#[trigger] d.volumes[k]) != 0real
}

/// A step is exact in the measure of a quantity that no source acts on: the
/// arithmetic is, the cells have some volume, nothing of the quantity crosses a
/// mirroring wall and, where an edge is transmissive, it is the energy, which the
/// ledger books.
pub open spec fn is_exact<K: Scheme2d>(d: Domain2d<K>, m: Measure<K::Real>) -> bool {
    &&& has_mirrored_walls(d)
    &&& has_extent(d, m)
    &&& is_exact_scheme(d.scheme, m)
    &&& m.quantity != Quantity2d::RadialMomentum
    &&& stops_at_walls(d.scheme, m, Dir::Radial)
    &&& stops_at_walls(d.scheme, m, Dir::Axial)
    &&& is_open_domain(d) ==> m.quantity == Quantity2d::Energy
}

/// Conservation over a step with gas at its walls, in the measure of the rings and of
/// the axial spacing. What the gas holds and what the ledger has booked as escaped add up
/// to the same before and after; with no transmissive edge, each stays as it was.
/// Energy is such a quantity and so, with no transmissive edge, is mass.
pub proof fn law_step_conserves<K: Scheme2d>(
    pre: Domain2d<K>,
    dt: K::Real,
    post: Domain2d<K>,
    m: Measure<K::Real>,
)
    requires
        pre.valid(),
        is_step_outcome(pre, dt, true, true, post, Ok(())),
        is_exact(pre, m),
        walls_hold_gas(pre, dt, post, m.worth),
    ensures
        pre.steps < usize::MAX ==> post.valid(),
        is_exact(post, m),
        post.scheme == pre.scheme,
        post.volumes == pre.volumes,
        holding(m, post) + (m.worth)(post.escaped) == holding(m, pre) + (m.worth)(pre.escaped),
        !is_open_domain(pre) ==> holding(m, post) == holding(m, pre) && (m.worth)(post.escaped)
            == (m.worth)(pre.escaped),
{
    let (half, a, b, c, d) = choose|
        half: K::Real,
        a: Domain2d<K>,
        b: Domain2d<K>,
        c: Domain2d<K>,
        d: Domain2d<K>,
    | #[trigger]
        is_split_step(pre, dt, true, true, half, a, b, c, d, post, Ok(()));
    lemma_exact_adds_up(pre.scheme, m);
    lemma_exact_moves(pre.scheme, m);
    if is_open_domain(pre) {
        lemma_exact_books(pre.scheme, m);
    }
    lemma_r_sweep_balances(pre, half, a, m);
    lemma_x_sweep_balances(a, dt, b, m);
    lemma_r_sweep_balances(b, half, c, m);
}

/// The part of a cell that is summed is the quantity that is measured.
pub open spec fn is_read<R>(part: spec_fn(Conserved2d<R>, R) -> bool, m: Measure<R>) -> bool {
    forall|u: Conserved2d<R>, q: R| #[trigger] part(u, q) ==> q == amount(m.quantity, u)
}

proof fn lemma_ring_is_read<K: Scheme2d>(
    scheme: K,
    part: spec_fn(Conserved2d<K::Real>, K::Real) -> bool,
    m: Measure<K::Real>,
    ring: Seq<Conserved2d<K::Real>>,
    run: Seq<K::Real>,
    volume: K::Real,
    dx: K::Real,
    weight: K::Real,
    w: int,
)
    requires
        is_ring_run(scheme, part, ring, run),
        adds_up(scheme, m),
        is_exact_scheme(scheme, m),
        is_read(part, m),
        call_ensures(K::dx, (&scheme,), dx),
        call_ensures(K::times, (&scheme, volume, dx), weight),
        0 <= w <= ring.len(),
    ensures
        weighed(m)(weight, run[w]) == crate::euler1d::tally(
            in_volume(m, volume),
            ring.subrange(0, w),
        ),
    decreases w,
{
    reveal(weighed);
    reveal(stored_in);
    if w > 0 {
        let i = w - 1;
        lemma_ring_is_read(scheme, part, m, ring, run, volume, dx, weight, i);
        assert(is_added(scheme, part, ring[i], run[i], run[i + 1]));
        let q = choose|q: K::Real|
            #[trigger] part(ring[i], q) && call_ensures(
                K::plus,
                (&scheme, run[i], q),
                run[i + 1],
            );
        assert(weighed(m)(weight, q) == stored_in(m)(ring[i], volume));
        assert(weighed(m)(weight, run[i + 1]) == weighed(m)(weight, run[i]) + weighed(m)(
            weight,
            q,
        ));
        assert(ring.subrange(0, w).drop_last() =~= ring.subrange(0, i));
    } else {
        assert(ring.subrange(0, 0).len() == 0);
    }
}

proof fn lemma_integral_is_read<K: Scheme2d>(
    d: Domain2d<K>,
    part: spec_fn(Conserved2d<K::Real>, K::Real) -> bool,
    m: Measure<K::Real>,
    run: Seq<K::Real>,
    n: int,
)
    requires
        is_integral_run(d, part, d.cells.len() as int, run),
        adds_up(d.scheme, m),
        is_exact_scheme(d.scheme, m),
        is_read(part, m),
        0 <= n <= d.cells.len(),
    ensures
        (m.worth)(run[n]) == held(m, d.cells, d.volumes, n),
    decreases n,
{
    if n > 0 {
        let j = n - 1;
        lemma_integral_is_read(d, part, m, run, j);
        let ring = d.cells[j];
        let volume = d.volumes[N_GHOST + j];
        assert(is_ring_added(d.scheme, part, ring, volume, run[j], run[j + 1]));
        let (sums, dx, weight) = choose|sums: Seq<K::Real>, dx: K::Real, weight: K::Real|
            {
                &&& #[trigger] is_ring_run(d.scheme, part, ring, sums)
                &&& call_ensures(K::dx, (&d.scheme,), dx)
                &&& #[trigger] call_ensures(K::times, (&d.scheme, volume, dx), weight)
                &&& is_weighted_sum(d.scheme, run[j], sums.last(), weight, run[j + 1])
            };
        let w = ring.len() as int;
        lemma_ring_is_read(d.scheme, part, m, ring, sums, volume, dx, weight, w);
        assert(ring.subrange(0, w) =~= ring);
        let q = choose|q: K::Real|
            #[trigger] call_ensures(K::times, (&d.scheme, sums.last(), weight), q)
                && call_ensures(K::plus, (&d.scheme, run[j], q), run[j + 1]);
        assert((m.worth)(q) == weighed(m)(weight, sums.last()));
    }
}

/// The domain integral of a quantity is worth what the cells hold of it.
pub proof fn law_total_is_what_is_held<K: Scheme2d>(
    d: Domain2d<K>,
    part: spec_fn(Conserved2d<K::Real>, K::Real) -> bool,
    total: K::Real,
    m: Measure<K::Real>,
)
    requires
        is_integral(d, part, total),
        is_exact_scheme(d.scheme, m),
        is_read(part, m),
    ensures
        (m.worth)(total) == holding(m, d),
{
    lemma_exact_adds_up(d.scheme, m);
    let n = d.cells.len() as int;
    let run = choose|run: Seq<K::Real>|
        #[trigger] is_integral_run(d, part, n, run) && run.last() == total;
    lemma_integral_is_read(d, part, m, run, n);
}

/// Conservation over a step, of the totals themselves: the total of the gas and
/// what has escaped add up to the same before and after, and with no transmissive
/// edge the total stays.
pub proof fn law_step_keeps_the_total<K: Scheme2d>(
    pre: Domain2d<K>,
    dt: K::Real,
    post: Domain2d<K>,
    part: spec_fn(Conserved2d<K::Real>, K::Real) -> bool,
    before: K::Real,
    after: K::Real,
    m: Measure<K::Real>,
)
    requires
        pre.valid(),
        is_step_outcome(pre, dt, true, true, post, Ok(())),
        is_exact(pre, m),
        walls_hold_gas(pre, dt, post, m.worth),
        is_read(part, m),
        is_integral(pre, part, before),
        is_integral(post, part, after),
    ensures
        (m.worth)(after) + (m.worth)(post.escaped) == (m.worth)(before) + (m.worth)(pre.escaped),
        !is_open_domain(pre) ==> (m.worth)(after) == (m.worth)(before),
{
    law_step_conserves(pre, dt, post, m);
    law_total_is_what_is_held(pre, part, before, m);
    law_total_is_what_is_held(post, part, after, m);
}

/// Only the ends of the axis act on a quantity, such as the axial momentum, that
/// is moved by the flux difference and stopped by the walls of the radius: what
/// the gas holds of it is the same before the axial sweep of a step as before the
/// step, and the same after that sweep as after the step.
pub proof fn law_only_axial_ends_act<K: Scheme2d>(
    pre: Domain2d<K>,
    dt: K::Real,
    post: Domain2d<K>,
    m: Measure<K::Real>,
)
    requires
        pre.valid(),
        is_step_outcome(pre, dt, true, true, post, Ok(())),
        has_mirrored_walls(pre),
        has_extent(pre, m),
        is_exact_scheme(pre.scheme, m),
        m.quantity != Quantity2d::RadialMomentum,
        stops_at_walls(pre.scheme, m, Dir::Radial),
        radial_walls_hold_gas(pre, dt, post, m.worth),
        pre.bc_r_min != Boundary2d::Transmissive,
        pre.bc_r_max != Boundary2d::Transmissive,
    ensures
        exists|a: Domain2d<K>, b: Domain2d<K>|
            {
                &&& a.valid()
                &&& #[trigger] is_x_sweep(a, dt, b, Ok(()))
                &&& holding(m, a) == holding(m, pre)
                &&& holding(m, post) == holding(m, b)
            },
{
    let (half, a, b, c, d) = choose|
        half: K::Real,
        a: Domain2d<K>,
        b: Domain2d<K>,
        c: Domain2d<K>,
        d: Domain2d<K>,
    | #[trigger]
        is_split_step(pre, dt, true, true, half, a, b, c, d, post, Ok(()));
    lemma_exact_adds_up(pre.scheme, m);
    lemma_exact_moves(pre.scheme, m);
    lemma_r_sweep_balances(pre, half, a, m);
    lemma_x_sweep_keeps_shape(a, dt, b);
    lemma_r_sweep_balances(b, half, c, m);
    assert(is_x_sweep(a, dt, b, Ok(())));
}

/// The radius of an interface is a number.
pub open spec fn is_one_radius<K: Scheme2d>(d: Domain2d<K>, m: int) -> bool {
    let n = d.cells.len() as usize;
    forall|r: K::Real, s: K::Real| #[trigger]
        is_face_radius(d.scheme, n, d.bc_r_min, d.bc_r_max, m, r) && #[trigger] is_face_radius(
            d.scheme,
            n,
            d.bc_r_min,
            d.bc_r_max,
            m,
            s,
        ) ==> r == s
}

/// Two interfaces have one radius.
pub open spec fn is_same_radius<K: Scheme2d>(d: Domain2d<K>, m: int, l: int) -> bool {
    let n = d.cells.len() as usize;
    forall|r: K::Real, s: K::Real| #[trigger]
        is_face_radius(d.scheme, n, d.bc_r_min, d.bc_r_max, m, r) && #[trigger] is_face_radius(
            d.scheme,
            n,
            d.bc_r_min,
            d.bc_r_max,
            l,
            s,
        ) ==> r == s
}

/// An interface beyond a mirroring edge is reflected onto the one as far inside,
/// and areas and volumes are functions of the radii.
pub open spec fn reflects_radii<K: Scheme2d>(d: Domain2d<K>) -> bool {
    let n = d.cells.len() as int;
    let k = d.scheme;
    &&& is_one_radius(d, 0)
    &&& is_one_radius(d, n)
    &&& d.bc_r_min.spec_mirrors() ==> is_same_radius(d, -1, 1)
    &&& d.bc_r_max.spec_mirrors() ==> is_same_radius(d, n + 1, n - 1)
    &&& forall|a: K::Real, b: K::Real| #[trigger]
        call_ensures(K::one, (&k,), a) && #[trigger] call_ensures(K::one, (&k,), b) ==> a == b
    &&& forall|a: K::Real, b: K::Real, x: K::Real, y: K::Real| #[trigger]
        call_ensures(K::smaller, (&k, a, b), x) && #[trigger] call_ensures(K::smaller, (&k, b, a), y)
            ==> x == y
    &&& forall|a: K::Real, b: K::Real, x: K::Real, y: K::Real| #[trigger]
        call_ensures(K::larger, (&k, a, b), x) && #[trigger] call_ensures(K::larger, (&k, b, a), y)
            ==> x == y
    &&& forall|a: K::Real, b: K::Real, x: K::Real, y: K::Real| #[trigger]
        is_cell_volume(k, d.geometry, a, b, x) && #[trigger] is_cell_volume(k, d.geometry, a, b, y)
            ==> x == y
}

/// The mesh that a domain is built on mirrors its walls: beyond a mirroring edge of
/// the radius, a ghost ring has the areas and the volume of the ring that it
/// mirrors.
pub proof fn law_mesh_is_mirrored<K: Scheme2d>(
    scheme: K,
    geometry: Geometry,
    boundaries: [Boundary2d; 4],
    n_r: usize,
    n_x: usize,
    initial: Seq<Primitive2d<K::Real>>,
    s: Euler2d<K>,
)
    requires
        is_build(scheme, geometry, boundaries, n_r, n_x, initial, Ok(s)),
        reflects_radii(s@),
    ensures
        has_mirrored_walls(s@),
{
    let d = s@;
    let n = n_r as int;
    if d.bc_r_min.spec_mirrors() {
        assert(is_same_radius(d, -1, 1));
        lemma_areas_agree(d, n_r, 1, 3);
        lemma_volumes_agree(d, n_r, 1, 2);
    }
    if d.bc_r_max.spec_mirrors() {
        assert(is_same_radius(d, n + 1, n - 1));
        lemma_areas_agree(d, n_r, n + 3, n + 1);
        lemma_volumes_agree(d, n_r, n + 2, n + 1);
    }
}

proof fn lemma_areas_agree<K: Scheme2d>(d: Domain2d<K>, n_r: usize, k: int, l: int)
    requires
        reflects_radii(d),
        is_same_radius(d, k - N_GHOST, l - N_GHOST),
        d.cells.len() == n_r,
        is_padded_area(d.scheme, d.geometry, n_r, d.bc_r_min, d.bc_r_max, k, d.areas[k]),
        is_padded_area(d.scheme, d.geometry, n_r, d.bc_r_min, d.bc_r_max, l, d.areas[l]),
    ensures
        d.areas[k] == d.areas[l],
{
    let n = d.cells.len() as usize;
    assert(n == n_r);
    let (i, j) = (k - N_GHOST, l - N_GHOST);
    let r = choose|r: K::Real| #[trigger]
        is_face_radius(d.scheme, n_r, d.bc_r_min, d.bc_r_max, i, r) && is_face_area(
            d.scheme,
            d.geometry,
            r,
            d.areas[k],
        );
    let s = choose|r: K::Real| #[trigger]
        is_face_radius(d.scheme, n_r, d.bc_r_min, d.bc_r_max, j, r) && is_face_area(
            d.scheme,
            d.geometry,
            r,
            d.areas[l],
        );
    assert(is_face_radius(d.scheme, n, d.bc_r_min, d.bc_r_max, i, r));
    assert(is_face_radius(d.scheme, n, d.bc_r_min, d.bc_r_max, j, s));
    assert(r == s);
}

/// A ghost ring and the ring inside, with the wall between them: the outer end of
/// one is as far from the wall as the inner end of the other.
proof fn lemma_volumes_agree<K: Scheme2d>(d: Domain2d<K>, n_r: usize, k: int, l: int)
    requires
        reflects_radii(d),
        d.cells.len() == n_r,
        k + 1 == l && is_same_radius(d, k - N_GHOST, l + 1 - N_GHOST) && is_one_radius(
            d,
            l - N_GHOST,
        ) || k == l + 1 && is_same_radius(d, k + 1 - N_GHOST, l - N_GHOST) && is_one_radius(
            d,
            k - N_GHOST,
        ),
        is_padded_volume(d.scheme, d.geometry, n_r, d.bc_r_min, d.bc_r_max, k, d.volumes[k]),
        is_padded_volume(d.scheme, d.geometry, n_r, d.bc_r_min, d.bc_r_max, l, d.volumes[l]),
    ensures
        d.volumes[k] == d.volumes[l],
{
    let n = d.cells.len() as usize;
    assert(n == n_r);
    let (lo, hi) = (d.bc_r_min, d.bc_r_max);
    let (a, b, small, large) = choose|a: K::Real, b: K::Real, small: K::Real, large: K::Real|
        {
            &&& is_face_radius(d.scheme, n, lo, hi, k - N_GHOST, a)
            &&& is_face_radius(d.scheme, n, lo, hi, k + 1 - N_GHOST, b)
            &&& #[trigger] call_ensures(K::smaller, (&d.scheme, a, b), small)
            &&& #[trigger] call_ensures(K::larger, (&d.scheme, a, b), large)
            &&& is_cell_volume(d.scheme, d.geometry, small, large, d.volumes[k])
        };
    let (e, f, least, most) = choose|a: K::Real, b: K::Real, small: K::Real, large: K::Real|
        {
            &&& is_face_radius(d.scheme, n, lo, hi, l - N_GHOST, a)
            &&& is_face_radius(d.scheme, n, lo, hi, l + 1 - N_GHOST, b)
            &&& #[trigger] call_ensures(K::smaller, (&d.scheme, a, b), small)
            &&& #[trigger] call_ensures(K::larger, (&d.scheme, a, b), large)
            &&& is_cell_volume(d.scheme, d.geometry, small, large, d.volumes[l])
        };
    assert(a == f && b == e);
    assert(small == least && large == most);
}

} // verus!

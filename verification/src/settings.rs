//! What a run is given and what it starts from.
//!
//! A path or a beam is accepted exactly where all that it is asked for is positive. A
//! property of air is read from its own part of a table, at its own temperature and
//! pressure. A seed is hot inside its bounds, and the gas around it is ambient.
use crate::airprops::{is_air, AirProperties, AirScale};
use crate::algebra::lemma_nothing;
use crate::cases::{
    is_propagate_run, middle_end, middle_start, spec_substeps, PathCase, PropagateParams,
    PropagateRun, PATH_STEPS,
};
use crate::checks::{is_beam_check, is_path_check, BeamError, PathError, PathRequest};
use crate::euler1d::{Euler1d, EulerError, Primitive};
use crate::euler2d::{Boundary2d, Euler2d, Euler2dError, Geometry, Primitive2d};
use crate::lsd::{is_seeded, is_seeded_state, Absorption, Beam1d, LsdColumn, SeededIgnition};
use crate::lsd2d::{Beam2d, BeamProfile, Lsd2dColumn, SeededIgnition2d};
use crate::medium::{is_exponent, is_kruse, Haze};
use crate::optics::Optics;
use crate::table::{
    between, is_bilinear, is_located, law_value_is_between_its_corners, Place, Table, TableError,
    Tabulation,
};
use vstd::prelude::*;
use vstd::arithmetic::div_mod::lemma_fundamental_div_mod;

verus! {

/// Numbers are compared by their worth, and positive ones are worth more than nothing.
#[verifier::opaque]
pub open spec fn judges_signs<K: Optics>(k: K, worth: spec_fn(K::Real) -> real) -> bool {
    &&& forall|zero: K::Real| #[trigger] call_ensures(K::zero, (&k,), zero) ==> worth(zero) == 0real
    &&& forall|a: K::Real, b: K::Real, g: bool| #[trigger]
        call_ensures(K::exceeds, (&k, a, b), g) ==> g == (worth(a) > worth(b))
    &&& forall|a: K::Real, g: bool| #[trigger]
        call_ensures(K::is_positive, (&k, a), g) ==> g == (worth(a) > 0real)
}

/// A path is accepted exactly where it has screens and substeps and where its strength,
/// its length, its outer scale and its wavelength are all positive.
pub proof fn law_accepted_path_is_positive<K: Optics>(
    k: K,
    q: PathRequest<K::Real>,
    r: Result<(), PathError>,
    worth: spec_fn(K::Real) -> real,
)
    requires
        judges_signs(k, worth),
        is_path_check(k, q, r),
    ensures
        r is Ok <==> q.screens > 0 && q.substeps > 0 && worth(q.cn2) > 0real && worth(q.z) > 0real
            && worth(q.l0) > 0real && worth(q.wavelength) > 0real,
        r == Err::<(), _>(PathError::BadTurbulence) ==> worth(q.cn2) <= 0real || worth(q.z) <= 0real
            || worth(q.l0) <= 0real,
        r == Err::<(), _>(PathError::BadWavelength) ==> worth(q.wavelength) <= 0real,
{
    reveal(judges_signs);
}

/// A beam is accepted exactly where its wavelength and its waist are positive.
pub proof fn law_accepted_beam_is_positive<K: Optics>(
    k: K,
    wavelength: K::Real,
    w0: K::Real,
    r: Result<(), BeamError>,
    worth: spec_fn(K::Real) -> real,
)
    requires
        judges_signs(k, worth),
        is_beam_check(k, wavelength, w0, r),
    ensures
        r is Ok <==> worth(wavelength) > 0real && worth(w0) > 0real,
        r == Err::<(), _>(BeamError::BadWavelength) <==> worth(wavelength) <= 0real,
{
    reveal(judges_signs);
}

/// An extinction that is given is the one used, with or without a visibility beside it,
/// and without either there is none.
pub proof fn law_given_extinction_is_used<K: PathCase + Haze>(
    k: K,
    p: PropagateParams<K::Real>,
    run: PropagateRun<K::Real>,
    worth: spec_fn(K::Real) -> real,
)
    requires
        judges_signs(k, worth),
        is_propagate_run(k, p, Ok(run)),
    ensures
        p.alpha is Some ==> run.alpha == p.alpha->0,
        p.alpha is None && p.visibility is None ==> worth(run.alpha) == 0real,
        p.alpha is None && p.visibility is Some ==> is_kruse(
            k,
            p.wavelength,
            p.visibility->0,
            run.alpha,
        ),
{
    reveal(judges_signs);
}

/// The exponent of the haze follows the visibility: one above the clear level, another
/// down to the average one, and below that the law of haze.
pub proof fn law_exponent_follows_the_visibility<K: Haze>(
    k: K,
    wavelength: K::Real,
    visibility: K::Real,
    alpha: K::Real,
    worth: spec_fn(K::Real) -> real,
    clear: real,
    average: real,
) -> (r: (K::Real, K::Real))
    requires
        is_kruse(k, wavelength, visibility, alpha),
        forall|a: K::Real, b: K::Real| #[trigger]
            call_ensures(K::kilometres, (&k, a), b) ==> worth(b) * 1000real == worth(a),
        forall|a: K::Real, b: bool| #[trigger]
            call_ensures(K::is_clear, (&k, a), b) ==> b == (worth(a) > clear),
        forall|a: K::Real, b: bool| #[trigger]
            call_ensures(K::is_average, (&k, a), b) ==> b == (worth(a) > average),
    ensures
        worth(r.0) * 1000real == worth(visibility),
        worth(r.0) > clear ==> call_ensures(K::clear_exponent, (&k,), r.1),
        average < worth(r.0) <= clear ==> call_ensures(K::average_exponent, (&k,), r.1),
        worth(r.0) <= clear && worth(r.0) <= average ==> call_ensures(K::haze_exponent, (&k, r.0), r.1),
        call_ensures(K::kruse_law, (&k, wavelength, visibility, r.1), alpha),
{
    let (km, q) = choose|km: K::Real, q: K::Real|
        {
            &&& #[trigger] call_ensures(K::kilometres, (&k, visibility), km)
            &&& #[trigger] is_exponent(k, km, q)
            &&& call_ensures(K::kruse_law, (&k, wavelength, visibility, q), alpha)
        };
    (km, q)
}

/// The place of a point in a table is that of its temperature along the first axis and of
/// its pressure along the second: the cell and what is past its start make up the
/// position. A point is refused for its temperature or its pressure where that is off its
/// own axis.
pub proof fn law_place_is_that_of_the_point<K: Tabulation>(
    k: K,
    n_t: int,
    n_p: int,
    t: K::Real,
    p: K::Real,
    r: Result<Place<K::Real>, TableError>,
    worth: spec_fn(K::Real) -> real,
    of_t: real,
    of_p: real,
)
    requires
        1 <= n_t <= usize::MAX,
        1 <= n_p <= usize::MAX,
        is_located(k, n_t, n_p, t, p, r),
        forall|x: K::Real| #[trigger] call_ensures(K::t_position, (&k, t), x) ==> worth(x) == of_t,
        forall|y: K::Real| #[trigger] call_ensures(K::p_position, (&k, p), y) ==> worth(y) == of_p,
        forall|x: K::Real, i: usize, f: K::Real| #[trigger]
            call_ensures(K::past, (&k, x, i), f) ==> worth(f) == worth(x) - i as real,
        forall|x: K::Real, last: usize, b: bool| #[trigger]
            call_ensures(K::is_on_axis, (&k, x, last), b) ==> b == (0real <= worth(x) <= last as real),
    ensures
        r matches Ok(c) ==> (c.i as real) + worth(c.ft) == of_t && (c.j as real) + worth(c.fp) == of_p,
        r is Ok ==> 0real <= of_t <= (n_t - 1) as real && 0real <= of_p <= (n_p - 1) as real,
        r == Err::<Place<K::Real>, _>(TableError::TemperatureOutside) ==> !(0real <= of_t <= (n_t
            - 1) as real),
        r == Err::<Place<K::Real>, _>(TableError::PressureOutside) ==> !(0real <= of_p <= (n_p
            - 1) as real),
{
    assert(((n_t - 1) as usize) as real == (n_t - 1) as real);
    assert(((n_p - 1) as usize) as real == (n_p - 1) as real);
}

/// A table is stored property by property, within a property temperature by temperature,
/// and within a temperature pressure by pressure: a place at a corner of its cell has the
/// value stored for that corner.
pub proof fn law_corner_has_its_stored_value<R, K: Tabulation<Real = R>>(
    k: K,
    table: Table<R>,
    prop: int,
    c: Place<R>,
    v: R,
    size: spec_fn(R) -> real,
)
    requires
        table.is_value(k, prop, c, v),
        is_bilinear(k, size),
    ensures
        ({
            let (n_t, n_p) = (table.spec_n_t() as int, table.spec_n_p() as int);
            let (i, j) = (c.i as int, c.j as int);
            let (s, t) = (size(c.ft), size(c.fp));
            let near = (prop * n_t + i) * n_p + j;
            &&& s == 0real && t == 0real ==> size(v) == size(table.stored()[near])
            &&& s == 1real && t == 0real ==> size(v) == size(table.stored()[(prop * n_t + i + 1) * n_p + j])
            &&& s == 0real && t == 1real ==> size(v) == size(table.stored()[near + 1])
        }),
{
    let (i, j) = (c.i as int, c.j as int);
    let (a, b, d, e) = (
        size(table.at_node(prop, i, j)),
        size(table.at_node(prop, i + 1, j)),
        size(table.at_node(prop, i, j + 1)),
        size(table.at_node(prop, i + 1, j + 1)),
    );
    let (s, t) = (size(c.ft), size(c.fp));
    lemma_ends(a, b);
    lemma_ends(d, e);
    lemma_ends(between(s, a, b), between(s, d, e));
}

proof fn lemma_ends(a: real, b: real)
    ensures
        between(0real, a, b) == a,
        between(1real, a, b) == b,
{
    lemma_nothing(a);
    lemma_nothing(b);
    assert(1real * a == a && 1real * b == b);
}

/// Air is read from the properties of a table in their order: the density, the heat
/// capacity, the conductivity and the refractivity, which alone depends on the
/// wavelength. Where each property is the same throughout a cell, that is what is read.
pub proof fn law_air_has_each_property_of_its_own<K: AirScale>(
    k: K,
    table: Table<K::Real>,
    c: Place<K::Real>,
    wavelength: K::Real,
    a: AirProperties<K::Real>,
    size: spec_fn(K::Real) -> real,
    level: spec_fn(int) -> real,
    dispersion: real,
)
    requires
        is_air(k, table, c, wavelength, a),
        is_bilinear(k, size),
        0real <= size(c.ft) <= 1real,
        0real <= size(c.fp) <= 1real,
        forall|x: K::Real, y: K::Real, z: K::Real| #[trigger]
            call_ensures(K::times, (&k, x, y), z) ==> size(z) == size(x) * size(y),
        forall|d: K::Real| #[trigger]
            call_ensures(K::dispersion, (&k, wavelength), d) ==> size(d) == dispersion,
        forall|prop: int, i: int, j: int| size(#[trigger] table.at_node(prop, i, j)) == level(prop),
    ensures
        size(a.rho) == level(0),
        size(a.cp) == level(1),
        size(a.kappa_t) == level(2),
        size(a.n_minus_1) == level(3) * dispersion,
{
    let (n, d) = choose|n: K::Real, d: K::Real|
        {
            &&& #[trigger] table.is_value(k, 3, c, n)
            &&& #[trigger] call_ensures(K::dispersion, (&k, wavelength), d)
            &&& call_ensures(K::times, (&k, n, d), a.n_minus_1)
        };
    law_value_is_between_its_corners(k, table, 0, c, a.rho, size);
    law_value_is_between_its_corners(k, table, 1, c, a.cp, size);
    law_value_is_between_its_corners(k, table, 2, c, a.kappa_t, size);
    law_value_is_between_its_corners(k, table, 3, c, n, size);
}

/// A seeded column is ambient gas everywhere but for the pressure inside the seed.
pub proof fn law_seed_is_hot_inside_its_width<K: Beam1d>(
    scheme: K,
    n_cells: usize,
    ambient: Primitive<K::Real>,
    ignition: SeededIgnition<K::Real>,
    absorption: Absorption<K::Real>,
    incident: K::Real,
    states: Seq<Primitive<K::Real>>,
    built: Result<Euler1d<K>, EulerError>,
    column: LsdColumn<K>,
    worth: spec_fn(K::Real) -> real,
    place: spec_fn(int) -> real,
    i: int,
)
    requires
        is_seeded(
            scheme,
            n_cells,
            ambient,
            ignition,
            absorption,
            incident,
            states,
            built,
            Ok(column),
        ),
        forall|l: usize, x: K::Real| #[trigger]
            call_ensures(K::x_centre, (&scheme, l), x) ==> worth(x) == place(l as int),
        forall|x: K::Real, b: bool| #[trigger]
            call_ensures(K::is_in_seed, (&scheme, ignition, x), b) ==> b == (2real * (worth(x)
                - worth(ignition.centre)) <= worth(ignition.width) && 2real * (worth(
                ignition.centre,
            ) - worth(x)) <= worth(ignition.width)),
        0 <= i < n_cells,
    ensures
        ({
            let off = 2real * (place(i) - worth(ignition.centre));
            let inside = off <= worth(ignition.width) && 0real - off <= worth(ignition.width);
            &&& states[i].rho == ambient.rho
            &&& states[i].u == ambient.u
            &&& states[i].p == if inside {
                ignition.pressure
            } else {
                ambient.p
            }
        }),
{
    assert(is_seeded_state(scheme, ignition, ambient, i, states[i]));
}

/// A seeded wide column is ambient gas everywhere but for the pressure of the cells
/// inside the seed, along the axis by their axial cell and across it by their ring.
pub proof fn law_wide_seed_is_hot_inside_its_bounds<K: Beam2d>(
    scheme: K,
    line: K::Line,
    geometry: Geometry,
    n_r: usize,
    n_x: usize,
    ambient: Primitive2d<K::Real>,
    ignition: SeededIgnition2d<K::Real>,
    absorption: Absorption<K::Real>,
    incident: K::Real,
    beam: BeamProfile<K::Real>,
    boundaries: [Boundary2d; 4],
    states: Seq<Primitive2d<K::Real>>,
    built: Result<Euler2d<K>, Euler2dError>,
    column: Lsd2dColumn<K>,
    worth: spec_fn(K::Real) -> real,
    radius: spec_fn(int) -> real,
    beside: spec_fn(int) -> bool,
    j: int,
    i: int,
)
    requires
        crate::lsd2d::is_seeded(
            scheme,
            line,
            geometry,
            n_r,
            n_x,
            ambient,
            ignition,
            absorption,
            incident,
            beam,
            boundaries,
            states,
            built,
            Ok(column),
        ),
        forall|l: usize, r: K::Real| #[trigger]
            call_ensures(K::r_centre, (&scheme, l), r) ==> worth(r) == radius(l as int),
        forall|l: usize, x: K::Real, b: bool|
            #![trigger call_ensures(K::x_centre, (&scheme, l), x), call_ensures(K::is_beside_seed, (&scheme, ignition, x), b)]
            call_ensures(K::x_centre, (&scheme, l), x) && call_ensures(
                K::is_beside_seed,
                (&scheme, ignition, x),
                b,
            ) ==> b == beside(l as int),
        forall|r: K::Real, b: bool| #[trigger]
            call_ensures(K::is_within, (&scheme, r, ignition.radius), b) ==> b == (worth(r) <= worth(
                ignition.radius,
            )),
        0 <= j < n_r,
        0 <= i < n_x,
    ensures
        ({
            let w = states[j * n_x + i];
            let inside = beside(i) && radius(j) <= worth(ignition.radius);
            w == if inside {
                Primitive2d { p: ignition.pressure, ..ambient }
            } else {
                ambient
            }
        }),
{
    let (l, n) = (j * n_x + i, n_x as int);
    assert(0 <= l < n_r * n_x) by (nonlinear_arith)
        requires
            l == j * n + i,
            n == n_x,
            0 <= j,
            j < n_r,
            0 <= i,
            i < n,
    ;
    vstd::arithmetic::div_mod::lemma_fundamental_div_mod_converse(l, n, j, i);
    assert(crate::lsd2d::is_seeded_state(scheme, ignition, ambient, l / n, l % n, states[l]));
}

/// The steps of a path are shared among its screens: as many between two screens as fit,
/// one at least, and no more than one where there are more screens than steps.
pub proof fn law_substeps_share_the_path(screens: int)
    requires
        screens > 0,
    ensures
        spec_substeps(screens) >= 1,
        screens <= PATH_STEPS ==> spec_substeps(screens) * screens <= PATH_STEPS < (spec_substeps(
            screens,
        ) + 1) * screens,
        screens > PATH_STEPS ==> spec_substeps(screens) == 1,
{
    let (n, q) = (PATH_STEPS as int, PATH_STEPS as int / screens);
    lemma_fundamental_div_mod(n, screens);
    assert(n == q * screens + n % screens && 0 <= n % screens < screens) by {
        assert(screens * q == q * screens) by (nonlinear_arith);
    }
    assert((q + 1) * screens == q * screens + screens) by (nonlinear_arith);
    if screens <= n {
        assert(q >= 1) by (nonlinear_arith)
            requires
                n < (q + 1) * screens,
                screens <= n,
                screens > 0,
        ;
    } else {
        assert(q <= 0) by (nonlinear_arith)
            requires
                q * screens <= n,
                screens > n,
                n > 0,
                screens > 0,
        ;
    }
}

/// The middle of a grid is centred: on a grid of whole quarters it is half of the rows,
/// as many left out before it as behind it, and on any grid it holds the origin.
pub proof fn law_middle_is_centred(n: int)
    requires
        n >= 2,
    ensures
        0 <= middle_start(n) <= n / 2 < middle_end(n) <= n || n < 4,
        n % 4 == 0 ==> middle_start(n) == n - middle_end(n),
        n % 4 == 0 ==> middle_end(n) - middle_start(n) == n / 2,
{
}

} // verus!

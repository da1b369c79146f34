//! Properties of air in equilibrium up to the temperatures of a plasma.
use crate::table::{
    is_bilinear, is_inside_cells, is_located, is_within_corners, law_value_is_between_its_corners,
    Place, Table, TableError, Tabulation,
};
use vstd::prelude::*;

verus! {

/// Temperature nodes of the table.
pub const N_T: usize = 597;

/// Pressure nodes of the table.
pub const N_P: usize = 33;

/// Halvings of the table's temperature range in a search for a density.
pub const N_HALVINGS: usize = 45;

/// Equilibrium air at one temperature and pressure.
#[derive(Debug, Clone, Copy, PartialEq)]
pub struct PlasmaProperties<R> {
    pub rho: R,
    /// Specific internal energy.
    pub e: R,
    /// Ratio of specific heats.
    pub gamma_eff: R,
    /// Electron density.
    pub n_e: R,
}

/// The arithmetic of the plasma table.
pub trait PlasmaScale: Tabulation {
    fn is_finite(&self, x: Self::Real) -> bool;

    fn is_positive(&self, x: Self::Real) -> bool;

    fn exponential(&self, x: Self::Real) -> Self::Real;

    fn ratio(&self, a: Self::Real, b: Self::Real) -> Self::Real;

    /// Mean ion charge of the mixture.
    fn charge(&self) -> Self::Real;

    /// Temperature above which the table's single ionization is an approximation.
    fn second_ionization(&self) -> Self::Real;

    /// Temperature of the first node.
    fn coldest(&self) -> Self::Real;

    /// Temperature of the last node.
    fn hottest(&self) -> Self::Real;

    /// Whether `x` is neither below `lo` nor above `hi`.
    fn is_between(&self, x: Self::Real, lo: Self::Real, hi: Self::Real) -> bool;

    /// Whether `a > b`.
    fn exceeds(&self, a: Self::Real, b: Self::Real) -> bool;

    fn midpoint(&self, lo: Self::Real, hi: Self::Real) -> Self::Real;
}

/// `n` is the ion density of a plasma: the electron density over the mean ion
/// charge.
pub open spec fn is_ion_density<K: PlasmaScale>(
    k: K,
    a: PlasmaProperties<K::Real>,
    n: K::Real,
) -> bool {
    exists|z: K::Real| #[trigger]
        call_ensures(K::charge, (&k,), z) && call_ensures(K::ratio, (&k, a.n_e, z), n)
}

impl<R: Copy> PlasmaProperties<R> {
    /// Ion density: the electron density over the mean ion charge.
    pub fn n_i<K: PlasmaScale + Tabulation<Real = R>>(&self, k: &K) -> (n: R)
        ensures
            is_ion_density(*k, *self, n),
    {
        let z: R = k.charge();
        k.ratio(self.n_e, z)
    }

    /// Mean ion charge.
    pub fn z_bar<K: PlasmaScale + Tabulation<Real = R>>(&self, k: &K) -> (z: R)
        ensures
            call_ensures(K::charge, (k,), z),
    {
        k.charge()
    }
}

/// Density, internal energy, ratio of specific heats and electron density of
/// air; the first and the last as logarithms.
#[derive(Debug, PartialEq)]
pub struct PlasmaTable<R> {
    table: Table<R>,
}

impl<R> View for PlasmaTable<R> {
    type V = Table<R>;

    closed spec fn view(&self) -> Table<R> {
        self.table
    }
}

/// `v` is the exponential of a tabulated logarithm.
pub open spec fn is_exponentiated<K: PlasmaScale>(
    k: K,
    table: Table<K::Real>,
    prop: int,
    c: Place<K::Real>,
    v: K::Real,
) -> bool {
    exists|log: K::Real| #[trigger]
        table.is_value(k, prop, c, log) && call_ensures(K::exponential, (&k, log), v)
}

/// `a` is the plasma in a cell of a table.
pub open spec fn is_plasma<K: PlasmaScale>(
    k: K,
    table: Table<K::Real>,
    c: Place<K::Real>,
    a: PlasmaProperties<K::Real>,
) -> bool {
    &&& is_exponentiated(k, table, 0, c, a.rho)
    &&& table.is_value(k, 1, c, a.e)
    &&& table.is_value(k, 2, c, a.gamma_eff)
    &&& is_exponentiated(k, table, 3, c, a.n_e)
}

/// What looking a plasma up may return: the point is checked to be finite, its
/// pressure to be positive, and then against the table.
pub open spec fn is_lookup<K: PlasmaScale>(
    k: K,
    table: Table<K::Real>,
    t: K::Real,
    p: K::Real,
    r: Result<PlasmaProperties<K::Real>, TableError>,
) -> bool {
    let finite = call_ensures(K::is_finite, (&k, t), true) && call_ensures(
        K::is_finite,
        (&k, p),
        true,
    );
    let positive = finite && call_ensures(K::is_positive, (&k, p), true);
    match r {
        Err(TableError::NotFinite) => call_ensures(K::is_finite, (&k, t), false) || call_ensures(
            K::is_finite,
            (&k, p),
            false,
        ),
        Err(TableError::NotPositive) => finite && call_ensures(K::is_positive, (&k, p), false),
        Err(e) => positive && is_located(k, N_T as int, N_P as int, t, p, Err(e)),
        Ok(a) => positive && exists|c: Place<K::Real>| #[trigger]
            is_located(k, N_T as int, N_P as int, t, p, Ok(c)) && is_plasma(k, table, c, a),
    }
}

/// `next` is the half of a range of temperatures where the density is found: the
/// hotter one if the gas in the middle is too dense, else the colder one.
pub open spec fn is_halved<K: PlasmaScale>(
    k: K,
    table: Table<K::Real>,
    rho: K::Real,
    p: K::Real,
    range: (K::Real, K::Real),
    next: (K::Real, K::Real),
) -> bool {
    exists|mid: K::Real, a: PlasmaProperties<K::Real>|
        {
            &&& #[trigger] call_ensures(K::midpoint, (&k, range.0, range.1), mid)
            &&& #[trigger] is_lookup(k, table, mid, p, Ok(a))
            &&& {
                ||| call_ensures(K::exceeds, (&k, a.rho, rho), true) && next == (mid, range.1)
                ||| call_ensures(K::exceeds, (&k, a.rho, rho), false) && next == (range.0, mid)
            }
        }
}

/// A search that begins with a range of temperatures and halves it.
pub open spec fn is_search<K: PlasmaScale>(
    k: K,
    table: Table<K::Real>,
    rho: K::Real,
    p: K::Real,
    whole: (K::Real, K::Real),
    ranges: Seq<(K::Real, K::Real)>,
) -> bool {
    &&& 1 <= ranges.len() <= N_HALVINGS + 1
    &&& ranges[0] == whole
    &&& forall|i: int|
        0 <= i < ranges.len() - 1 ==> #[trigger] is_halved(k, table, rho, p, ranges[i], ranges[i + 1])
}

/// What a search may end with: the middle of the last range, or what the table
/// fails with in the middle of a range.
pub open spec fn is_search_end<K: PlasmaScale>(
    k: K,
    table: Table<K::Real>,
    p: K::Real,
    ranges: Seq<(K::Real, K::Real)>,
    r: Result<K::Real, TableError>,
) -> bool {
    let last = ranges.last();
    match r {
        Ok(t) => {
            &&& ranges.len() == N_HALVINGS + 1
            &&& call_ensures(K::midpoint, (&k, last.0, last.1), t)
        },
        Err(e) => {
            &&& ranges.len() <= N_HALVINGS
            &&& exists|mid: K::Real|
                {
                    &&& #[trigger] call_ensures(K::midpoint, (&k, last.0, last.1), mid)
                    &&& is_lookup(k, table, mid, p, Err(e))
                }
        },
    }
}

/// What looking for a density between the plasmas at the two ends of the
/// temperature axis may return.
pub open spec fn is_found_between<K: PlasmaScale>(
    k: K,
    table: Table<K::Real>,
    rho: K::Real,
    p: K::Real,
    whole: (K::Real, K::Real),
    cold: PlasmaProperties<K::Real>,
    hot: PlasmaProperties<K::Real>,
    r: Result<K::Real, TableError>,
) -> bool {
    ||| call_ensures(K::is_between, (&k, rho, hot.rho, cold.rho), false) && r
        == Err::<K::Real, TableError>(TableError::DensityOutside)
    ||| call_ensures(K::is_between, (&k, rho, hot.rho, cold.rho), true) && exists|
        ranges: Seq<(K::Real, K::Real)>,
    | #[trigger]
        is_search(k, table, rho, p, whole, ranges) && is_search_end(k, table, p, ranges, r)
}

/// What inverting a table for the temperature of a density and a pressure may
/// return: the cold end is looked up first, then the hot one.
pub open spec fn is_inversion<K: PlasmaScale>(
    k: K,
    table: Table<K::Real>,
    rho: K::Real,
    p: K::Real,
    r: Result<K::Real, TableError>,
) -> bool {
    exists|t0: K::Real, t1: K::Real|
        {
            &&& #[trigger] call_ensures(K::coldest, (&k,), t0)
            &&& #[trigger] call_ensures(K::hottest, (&k,), t1)
            &&& {
                ||| r matches Err(e) && is_lookup(k, table, t0, p, Err(e))
                ||| exists|cold: PlasmaProperties<K::Real>| #[trigger]
                    is_lookup(k, table, t0, p, Ok(cold)) && {
                        ||| r matches Err(e) && is_lookup(k, table, t1, p, Err(e))
                        ||| exists|hot: PlasmaProperties<K::Real>| #[trigger]
                            is_lookup(k, table, t1, p, Ok(hot)) && is_found_between(
                                k,
                                table,
                                rho,
                                p,
                                (t0, t1),
                                cold,
                                hot,
                                r,
                            )
                    }
            }
        }
}

/// Whether a temperature is above the range where the plasma is singly ionized.
pub open spec fn is_singly_ionized<A: PlasmaScale>(axes: A, t: A::Real, above: bool) -> bool {
    exists|limit: A::Real| #[trigger]
        call_ensures(A::second_ionization, (&axes,), limit) && call_ensures(
            <A as PlasmaScale>::exceeds,
            (&axes, t, limit),
            above,
        )
}

impl<R: Copy> PlasmaTable<R> {
    /// Whether what the table says at a temperature is a singly-ionized
    /// approximation rather than a prediction.
    pub fn is_singly_ionized_approximation<A: PlasmaScale + Tabulation<Real = R>>(
        axes: &A,
        t: R,
    ) -> (above: bool)
        ensures
            is_singly_ionized(*axes, t, above),
    {
        let limit: R = axes.second_ionization();
        axes.exceeds(t, limit)
    }
}

impl<R> PlasmaTable<R> {
    #[verifier::type_invariant]
    spec fn is_shaped(self) -> bool {
        &&& self.table.wf()
        &&& self.table.spec_n_t() == N_T
        &&& self.table.spec_n_p() == N_P
    }
}

impl<R: Copy> PlasmaTable<R> {
    pub open spec fn wf(&self) -> bool {
        &&& self@.wf()
        &&& self@.spec_n_t() == N_T
        &&& self@.spec_n_p() == N_P
    }

    /// The table over row-major entries of the given shape.
    pub fn load(shape: (usize, usize, usize), data: Vec<R>) -> (r: Result<Self, TableError>)
        requires
            data@.len() == shape.0 * shape.1 * shape.2,
        ensures
            match r {
                Ok(a) => shape == (4usize, N_T, N_P) && a.wf() && a@.stored() == data@,
                Err(TableError::Shape { properties, temperatures, pressures }) => {
                    &&& shape != (4usize, N_T, N_P)
                    &&& shape == (properties, temperatures, pressures)
                },
                Err(_) => false,
            },
    {
        match Table::from_parts(shape, data, N_T, N_P) {
            Ok(table) => Ok(PlasmaTable { table }),
            Err(e) => Err(e),
        }
    }

    /// Equilibrium air at a temperature and a pressure within the table.
    pub fn at<K: PlasmaScale + Tabulation<Real = R>>(&self, k: &K, t: R, p: R) -> (r: Result<
        PlasmaProperties<R>,
        TableError,
    >)
        ensures
            is_lookup(*k, self@, t, p, r),
    {
        proof {
            use_type_invariant(self);
        }
        if !k.is_finite(t) || !k.is_finite(p) {
            return Err(TableError::NotFinite);
        }
        if !k.is_positive(p) {
            return Err(TableError::NotPositive);
        }
        match self.table.locate(k, t, p) {
            Err(e) => {
                proof {
                    assert(is_located(*k, N_T as int, N_P as int, t, p, Err(e)));
                }
                Err(e)
            },
            Ok(c) => {
                let log_rho: R = self.table.value(k, 0, c);
                let log_ne: R = self.table.value(k, 3, c);
                let a: PlasmaProperties<R> = PlasmaProperties {
                    rho: k.exponential(log_rho),
                    e: self.table.value(k, 1, c),
                    gamma_eff: self.table.value(k, 2, c),
                    n_e: k.exponential(log_ne),
                };
                proof {
                    assert(self@.is_value(*k, 0, c, log_rho));
                    assert(self@.is_value(*k, 3, c, log_ne));
                    assert(is_exponentiated(*k, self@, 0, c, a.rho));
                    assert(is_exponentiated(*k, self@, 3, c, a.n_e));
                    assert(is_located(*k, N_T as int, N_P as int, t, p, Ok(c)));
                    assert(is_plasma(*k, self@, c, a));
                }
                Ok(a)
            },
        }
    }

    /// The temperature at which air of a pressure has a density, which falls as the
    /// temperature rises. A density outside the table is refused.
    pub fn temperature<K: PlasmaScale + Tabulation<Real = R>>(&self, k: &K, rho: R, p: R) -> (r: Result<
        R,
        TableError,
    >)
        ensures
            is_inversion(*k, self@, rho, p, r),
    {
        let t0: R = k.coldest();
        let t1: R = k.hottest();
        let cold: PlasmaProperties<R> = match self.at(k, t0, p) {
            Ok(a) => a,
            Err(e) => {
                return Err(e);
            },
        };
        let hot: PlasmaProperties<R> = match self.at(k, t1, p) {
            Ok(a) => a,
            Err(e) => {
                return Err(e);
            },
        };
        if !k.is_between(rho, hot.rho, cold.rho) {
            proof {
                assert(is_found_between(
                    *k,
                    self@,
                    rho,
                    p,
                    (t0, t1),
                    cold,
                    hot,
                    Err(TableError::DensityOutside),
                ));
            }
            return Err(TableError::DensityOutside);
        }
        let r: Result<R, TableError> = self.search(k, rho, p, (t0, t1));
        proof {
            let ranges = choose|ranges: Seq<(R, R)>| #[trigger]
                is_search(*k, self@, rho, p, (t0, t1), ranges) && is_search_end(
                    *k,
                    self@,
                    p,
                    ranges,
                    r,
                );
            assert(is_search(*k, self@, rho, p, (t0, t1), ranges));
            assert(is_found_between(*k, self@, rho, p, (t0, t1), cold, hot, r));
        }
        r
    }

    /// The temperature of a density within a range of temperatures.
    fn search<K: PlasmaScale + Tabulation<Real = R>>(
        &self,
        k: &K,
        rho: R,
        p: R,
        whole: (R, R),
    ) -> (r: Result<R, TableError>)
        ensures
            exists|ranges: Seq<(R, R)>| #[trigger]
                is_search(*k, self@, rho, p, whole, ranges) && is_search_end(
                    *k,
                    self@,
                    p,
                    ranges,
                    r,
                ),
    {
        let ghost mut ranges: Seq<(R, R)> = seq![whole];
        let mut lo: R = whole.0;
        let mut hi: R = whole.1;
        for i in 0..N_HALVINGS
            invariant
                is_search(*k, self@, rho, p, whole, ranges),
                ranges.len() == i + 1,
                ranges.last() == (lo, hi),
        {
            let mid: R = k.midpoint(lo, hi);
            let a: PlasmaProperties<R> = match self.at(k, mid, p) {
                Ok(a) => a,
                Err(e) => {
                    proof {
                        assert(is_search_end(*k, self@, p, ranges, Err(e)));
                    }
                    return Err(e);
                },
            };
            let ghost before = (lo, hi);
            if k.exceeds(a.rho, rho) {
                lo = mid;
            } else {
                hi = mid;
            }
            proof {
                assert(is_halved(*k, self@, rho, p, before, (lo, hi)));
                let grown = ranges.push((lo, hi));
                assert forall|j: int| 0 <= j < grown.len() - 1 implies #[trigger] is_halved(
                    *k,
                    self@,
                    rho,
                    p,
                    grown[j],
                    grown[j + 1],
                ) by {
                    if j < ranges.len() - 1 {
                        assert(is_halved(*k, self@, rho, p, ranges[j], ranges[j + 1]));
                    }
                }
                ranges = grown;
            }
        }
        let t: R = k.midpoint(lo, hi);
        proof {
            assert(is_search_end(*k, self@, p, ranges, Ok(t)));
        }
        Ok(t)
    }
}

/// The density that a search looks for never leaves the range: the gas is too
/// dense at the cold end of every range, unless that is still the first one, and
/// not too dense at the hot end, unless that is.
pub proof fn law_search_keeps_the_density<K: PlasmaScale>(
    k: K,
    table: Table<K::Real>,
    rho: K::Real,
    p: K::Real,
    whole: (K::Real, K::Real),
    ranges: Seq<(K::Real, K::Real)>,
    i: int,
)
    requires
        is_search(k, table, rho, p, whole, ranges),
        0 <= i < ranges.len(),
    ensures
        ranges[i].0 == whole.0 || exists|a: PlasmaProperties<K::Real>| #[trigger]
            is_lookup(k, table, ranges[i].0, p, Ok(a)) && call_ensures(
                K::exceeds,
                (&k, a.rho, rho),
                true,
            ),
        ranges[i].1 == whole.1 || exists|a: PlasmaProperties<K::Real>| #[trigger]
            is_lookup(k, table, ranges[i].1, p, Ok(a)) && call_ensures(
                K::exceeds,
                (&k, a.rho, rho),
                false,
            ),
    decreases i,
{
    if i > 0 {
        law_search_keeps_the_density(k, table, rho, p, whole, ranges, i - 1);
        assert(is_halved(k, table, rho, p, ranges[i - 1], ranges[i - 1 + 1]));
    }
}

/// What is looked up lies between the four corners of its cell of the table: the
/// energy and the exponent themselves, the two densities in their logarithms.
pub proof fn law_plasma_is_between_its_corners<K: PlasmaScale>(
    k: K,
    table: Table<K::Real>,
    t: K::Real,
    p: K::Real,
    a: PlasmaProperties<K::Real>,
    size: spec_fn(K::Real) -> real,
)
    requires
        is_lookup(k, table, t, p, Ok(a)),
        is_bilinear(k, size),
        is_inside_cells(k, N_T as int, N_P as int, size),
    ensures
        exists|c: Place<K::Real>, log_rho: K::Real, log_n: K::Real|
            {
                &&& #[trigger] is_located(k, N_T as int, N_P as int, t, p, Ok(c))
                &&& #[trigger] call_ensures(K::exponential, (&k, log_rho), a.rho)
                &&& #[trigger] call_ensures(K::exponential, (&k, log_n), a.n_e)
                &&& is_within_corners(table, 0, c, size, log_rho)
                &&& is_within_corners(table, 1, c, size, a.e)
                &&& is_within_corners(table, 2, c, size, a.gamma_eff)
                &&& is_within_corners(table, 3, c, size, log_n)
            },
{
    let c = choose|c: Place<K::Real>| #[trigger]
        is_located(k, N_T as int, N_P as int, t, p, Ok(c)) && is_plasma(k, table, c, a);
    let log_rho = choose|l: K::Real| #[trigger]
        table.is_value(k, 0, c, l) && call_ensures(K::exponential, (&k, l), a.rho);
    let log_n = choose|l: K::Real| #[trigger]
        table.is_value(k, 3, c, l) && call_ensures(K::exponential, (&k, l), a.n_e);
    law_value_is_between_its_corners(k, table, 0, c, log_rho, size);
    law_value_is_between_its_corners(k, table, 1, c, a.e, size);
    law_value_is_between_its_corners(k, table, 2, c, a.gamma_eff, size);
    law_value_is_between_its_corners(k, table, 3, c, log_n, size);
    assert(call_ensures(K::exponential, (&k, log_rho), a.rho));
    assert(call_ensures(K::exponential, (&k, log_n), a.n_e));
}

} // verus!

//! Properties of air over temperature and pressure, and their dispersion.
use crate::table::{is_located, Place, Table, TableError, Tabulation};
use vstd::prelude::*;

verus! {

/// Temperature nodes of the table.
pub const N_T: usize = 101;

/// Pressure nodes of the table.
pub const N_P: usize = 29;

/// Air at one temperature, pressure and wavelength.
#[derive(Debug, Clone, Copy, PartialEq)]
pub struct AirProperties<R> {
    pub rho: R,
    /// Isobaric specific heat.
    pub cp: R,
    /// Thermal conductivity.
    pub kappa_t: R,
    /// Refractivity.
    pub n_minus_1: R,
}

/// The arithmetic of the air table.
pub trait AirScale: Tabulation {
    /// Refractivity at a wavelength relative to the tabulated one.
    fn dispersion(&self, wavelength: Self::Real) -> Self::Real;

    fn times(&self, a: Self::Real, b: Self::Real) -> Self::Real;
}

/// Density, specific heat, conductivity and refractivity of air.
#[derive(Debug, PartialEq)]
pub struct AirTable<R> {
    table: Table<R>,
}

impl<R> View for AirTable<R> {
    type V = Table<R>;

    closed spec fn view(&self) -> Table<R> {
        self.table
    }
}

/// `a` is the air in a cell of a table.
pub open spec fn is_air<K: AirScale>(
    k: K,
    table: Table<K::Real>,
    c: Place<K::Real>,
    wavelength: K::Real,
    a: AirProperties<K::Real>,
) -> bool {
    &&& table.is_value(k, 0, c, a.rho)
    &&& table.is_value(k, 1, c, a.cp)
    &&& table.is_value(k, 2, c, a.kappa_t)
    &&& exists|n: K::Real, d: K::Real|
        {
            &&& #[trigger] table.is_value(k, 3, c, n)
            &&& #[trigger] call_ensures(K::dispersion, (&k, wavelength), d)
            &&& call_ensures(K::times, (&k, n, d), a.n_minus_1)
        }
}

impl<R: Copy> AirTable<R> {
    pub open spec fn wf(&self) -> bool {
        &&& self@.wf()
        &&& self@.spec_n_t() == N_T
        &&& self@.spec_n_p() == N_P
    }

    /// The table over row-major entries of the given shape.
    pub fn load(shape: (usize, usize, usize), data: Vec<R>) -> (r: Result<Self, TableError>)
        requires
            data@.len() == shape.0 * shape.1 * shape.2,
        ensures
            match r {
                Ok(a) => shape == (4usize, N_T, N_P) && a.wf() && a@.stored() == data@,
                Err(TableError::Shape { properties, temperatures, pressures }) => {
                    &&& shape != (4usize, N_T, N_P)
                    &&& shape == (properties, temperatures, pressures)
                },
                Err(_) => false,
            },
    {
        match Table::from_parts(shape, data, N_T, N_P) {
            Ok(table) => Ok(AirTable { table }),
            Err(e) => Err(e),
        }
    }

    /// Air at a temperature and a pressure within the table, its refractivity
    /// rescaled to a wavelength.
    pub fn at<K: AirScale + Tabulation<Real = R>>(&self, k: &K, t: R, p: R, wavelength: R) -> (r: Result<
        AirProperties<R>,
        TableError,
    >)
        requires
            self.wf(),
        ensures
            match r {
                Ok(a) => exists|c: Place<R>| #[trigger]
                    is_located(*k, N_T as int, N_P as int, t, p, Ok(c)) && is_air(
                        *k,
                        self@,
                        c,
                        wavelength,
                        a,
                    ),
                Err(e) => is_located(*k, N_T as int, N_P as int, t, p, Err(e)),
            },
    {
        match self.table.locate(k, t, p) {
            Err(e) => Err(e),
            Ok(c) => {
                let n: R = self.table.value(k, 3, c);
                let d: R = k.dispersion(wavelength);
                let a: AirProperties<R> = AirProperties {
                    rho: self.table.value(k, 0, c),
                    cp: self.table.value(k, 1, c),
                    kappa_t: self.table.value(k, 2, c),
                    n_minus_1: k.times(n, d),
                };
                proof {
                    assert(self@.is_value(*k, 3, c, n));
                    assert(is_air(*k, self@, c, wavelength, a));
                }
                Ok(a)
            },
        }
    }
}

} // verus!

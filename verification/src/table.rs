//! Property tables over temperature and pressure: four properties on one
//! rectangle of nodes, interpolated within a cell.
use crate::algebra::{lemma_distributes, lemma_keeps_order};
use vstd::prelude::*;

verus! {

/// Properties of a table.
pub const N_PROPERTIES: usize = 4;

/// Why a table is refused, or has no value at a point.
#[derive(Debug, Clone, Copy, PartialEq, Eq, Structural)]
pub enum TableError {
    /// The array is not of the table's shape.
    Shape { properties: usize, temperatures: usize, pressures: usize },
    /// The point is not a number or not finite.
    NotFinite,
    /// The pressure is not positive.
    NotPositive,
    TemperatureOutside,
    PressureOutside,
    /// No temperature of the table gives the density.
    DensityOutside,
}

/// The arithmetic of an axis and of a cell.
pub trait Tabulation: Sized {
    type Real: Copy;

    /// Position of a temperature on its axis, in nodes.
    fn t_position(&self, t: Self::Real) -> Self::Real;

    /// Position of a pressure on its axis, in nodes.
    fn p_position(&self, p: Self::Real) -> Self::Real;

    /// Whether a position is between the first node and node `last`.
    fn is_on_axis(&self, x: Self::Real, last: usize) -> bool;

    /// Node at or before a position.
    fn node(&self, x: Self::Real) -> usize;

    /// Distance of a position past a node.
    fn past(&self, x: Self::Real, node: usize) -> Self::Real;

    /// Bilinear mean of the corners of a cell: the first, the next in
    /// temperature, the next in pressure, the next in both.
    fn blend(
        &self,
        corners: (Self::Real, Self::Real, Self::Real, Self::Real),
        ft: Self::Real,
        fp: Self::Real,
    ) -> Self::Real;
}

/// Row-major position of a property at a node.
pub open spec fn entry(n_t: int, n_p: int, prop: int, i: int, j: int) -> int {
    (prop * n_t + i) * n_p + j
}

/// Four properties on a rectangle of nodes, two at least along each axis.
#[derive(Debug, PartialEq)]
pub struct Table<R> {
    n_t: usize,
    n_p: usize,
    data: Vec<R>,
}

/// A place in a table: the cell and the fractions into it.
#[derive(Clone, Copy)]
pub struct Place<R> {
    pub i: usize,
    pub j: usize,
    pub ft: R,
    pub fp: R,
}

/// The cell of a position on an axis of `n` nodes: the node at or before it, and
/// the last cell for the last node.
pub open spec fn is_cell<K: Tabulation>(k: K, x: K::Real, n: int, i: int) -> bool {
    exists|node: usize| #[trigger]
        call_ensures(K::node, (&k, x), node) && i == if node < n - 1 {
            node as int
        } else {
            n - 2
        }
}

/// What locating a point may return: the temperature is looked at first.
pub open spec fn is_located<K: Tabulation>(
    k: K,
    n_t: int,
    n_p: int,
    t: K::Real,
    p: K::Real,
    r: Result<Place<K::Real>, TableError>,
) -> bool {
    exists|x: K::Real, y: K::Real|
        {
            &&& #[trigger] call_ensures(K::t_position, (&k, t), x)
            &&& #[trigger] call_ensures(K::p_position, (&k, p), y)
            &&& is_located_at(k, n_t, n_p, x, y, r)
        }
}

pub open spec fn is_located_at<K: Tabulation>(
    k: K,
    n_t: int,
    n_p: int,
    x: K::Real,
    y: K::Real,
    r: Result<Place<K::Real>, TableError>,
) -> bool {
    let warm = call_ensures(K::is_on_axis, (&k, x, (n_t - 1) as usize), true);
    let pressed = warm && call_ensures(K::is_on_axis, (&k, y, (n_p - 1) as usize), true);
    match r {
        Err(TableError::TemperatureOutside) => {
            call_ensures(K::is_on_axis, (&k, x, (n_t - 1) as usize), false)
        },
        Err(TableError::PressureOutside) => {
            warm && call_ensures(K::is_on_axis, (&k, y, (n_p - 1) as usize), false)
        },
        Err(_) => false,
        Ok(c) => {
            &&& pressed
            &&& is_cell(k, x, n_t, c.i as int)
            &&& is_cell(k, y, n_p, c.j as int)
            &&& call_ensures(K::past, (&k, x, c.i), c.ft)
            &&& call_ensures(K::past, (&k, y, c.j), c.fp)
        },
    }
}

impl<R> Table<R> {
    pub closed spec fn spec_n_t(&self) -> nat {
        self.n_t as nat
    }

    pub closed spec fn spec_n_p(&self) -> nat {
        self.n_p as nat
    }

    /// The entries in row-major order: property, temperature, pressure.
    pub closed spec fn stored(&self) -> Seq<R> {
        self.data@
    }

    /// Property `prop` at temperature node `i` and pressure node `j`.
    pub open spec fn at_node(&self, prop: int, i: int, j: int) -> R {
        self.stored()[entry(self.spec_n_t() as int, self.spec_n_p() as int, prop, i, j)]
    }

    pub open spec fn wf(&self) -> bool {
        &&& 2 <= self.spec_n_t()
        &&& 2 <= self.spec_n_p()
        &&& self.stored().len() == N_PROPERTIES * self.spec_n_t() * self.spec_n_p()
        &&& self.stored().len() <= usize::MAX
    }

    /// `v` is a property within a cell.
    pub open spec fn is_value<K: Tabulation<Real = R>>(
        &self,
        k: K,
        prop: int,
        c: Place<R>,
        v: R,
    ) -> bool {
        let (i, j) = (c.i as int, c.j as int);
        call_ensures(
            K::blend,
            (
                &k,
                (
                    self.at_node(prop, i, j),
                    self.at_node(prop, i + 1, j),
                    self.at_node(prop, i, j + 1),
                    self.at_node(prop, i + 1, j + 1),
                ),
                c.ft,
                c.fp,
            ),
            v,
        )
    }
}

/// An entry of the rectangle is within the storage.
proof fn lemma_entry_bound(n_t: int, n_p: int, prop: int, i: int, j: int)
    requires
        0 <= prop < N_PROPERTIES,
        0 <= i < n_t,
        0 <= j < n_p,
    ensures
        0 <= entry(n_t, n_p, prop, i, j) < N_PROPERTIES * n_t * n_p,
        0 <= prop * n_t + i < N_PROPERTIES * n_t,
        0 <= (prop * n_t + i) * n_p <= entry(n_t, n_p, prop, i, j),
{
    let row = prop * n_t + i;
    assert(0 <= row < N_PROPERTIES * n_t) by (nonlinear_arith)
        requires
            row == prop * n_t + i,
            0 <= prop < N_PROPERTIES,
            0 <= i < n_t,
    ;
    let rows = N_PROPERTIES * n_t;
    assert(0 <= row * n_p && row * n_p + j < rows * n_p) by (nonlinear_arith)
        requires
            0 <= row < rows,
            0 <= j < n_p,
    ;
}

impl<R: Copy> Table<R> {
    /// A table over row-major entries of the given shape, if that is the shape of
    /// `n_t` by `n_p` nodes.
    pub fn from_parts(shape: (usize, usize, usize), data: Vec<R>, n_t: usize, n_p: usize) -> (r: Result<
        Self,
        TableError,
    >)
        requires
            2 <= n_t,
            2 <= n_p,
            data@.len() == shape.0 * shape.1 * shape.2,
        ensures
            match r {
                Ok(table) => {
                    &&& shape == (N_PROPERTIES, n_t, n_p)
                    &&& table.wf()
                    &&& table.spec_n_t() == n_t
                    &&& table.spec_n_p() == n_p
                    &&& table.stored() == data@
                },
                Err(TableError::Shape { properties, temperatures, pressures }) => {
                    &&& shape != (N_PROPERTIES, n_t, n_p)
                    &&& shape == (properties, temperatures, pressures)
                },
                Err(_) => false,
            },
    {
        if shape.0 != N_PROPERTIES || shape.1 != n_t || shape.2 != n_p {
            return Err(
                TableError::Shape {
                    properties: shape.0,
                    temperatures: shape.1,
                    pressures: shape.2,
                },
            );
        }
        proof {
            assert(data@.len() == data.len());
        }
        Ok(Table { n_t, n_p, data })
    }

    fn at(&self, prop: usize, i: usize, j: usize) -> (v: R)
        requires
            self.wf(),
            prop < N_PROPERTIES,
            i < self.spec_n_t(),
            j < self.spec_n_p(),
        ensures
            v == self.at_node(prop as int, i as int, j as int),
    {
        proof {
            lemma_entry_bound(self.n_t as int, self.n_p as int, prop as int, i as int, j as int);
            let (rows, row) = (N_PROPERTIES * self.n_t, prop * self.n_t + i);
            assert(rows <= rows * self.n_p) by (nonlinear_arith)
                requires
                    0 <= rows,
                    1 <= self.n_p,
            ;
            assert(0 <= prop * self.n_t) by (nonlinear_arith)
                requires
                    0 <= prop,
                    0 <= self.n_t,
            ;
        }
        self.data[(prop * self.n_t + i) * self.n_p + j]
    }

    /// The cell of a point and the fractions into it.
    pub fn locate<K: Tabulation<Real = R>>(&self, k: &K, t: R, p: R) -> (r: Result<
        Place<R>,
        TableError,
    >)
        requires
            self.wf(),
        ensures
            is_located(*k, self.spec_n_t() as int, self.spec_n_p() as int, t, p, r),
            r matches Ok(c) ==> c.i + 1 < self.spec_n_t() && c.j + 1 < self.spec_n_p(),
    {
        let x: R = k.t_position(t);
        let y: R = k.p_position(p);
        if !k.is_on_axis(x, self.n_t - 1) {
            return Err(TableError::TemperatureOutside);
        }
        if !k.is_on_axis(y, self.n_p - 1) {
            return Err(TableError::PressureOutside);
        }
        let a: usize = k.node(x);
        let i: usize = if a < self.n_t - 1 {
            a
        } else {
            self.n_t - 2
        };
        let b: usize = k.node(y);
        let j: usize = if b < self.n_p - 1 {
            b
        } else {
            self.n_p - 2
        };
        let c: Place<R> = Place { i, j, ft: k.past(x, i), fp: k.past(y, j) };
        proof {
            assert(is_cell(*k, x, self.n_t as int, i as int));
            assert(is_cell(*k, y, self.n_p as int, j as int));
            assert(is_located_at(*k, self.n_t as int, self.n_p as int, x, y, Ok(c)));
        }
        Ok(c)
    }

    /// A property within a cell.
    pub fn value<K: Tabulation<Real = R>>(&self, k: &K, prop: usize, c: Place<R>) -> (v: R)
        requires
            self.wf(),
            prop < N_PROPERTIES,
            c.i + 1 < self.spec_n_t(),
            c.j + 1 < self.spec_n_p(),
        ensures
            self.is_value(*k, prop as int, c, v),
    {
        let corners: (R, R, R, R) = (
            self.at(prop, c.i, c.j),
            self.at(prop, c.i + 1, c.j),
            self.at(prop, c.i, c.j + 1),
            self.at(prop, c.i + 1, c.j + 1),
        );
        k.blend(corners, c.ft, c.fp)
    }
}

/// Neighbouring cells agree where they meet: at the far end of one and the near
/// end of the next the interpolated property is the same, where the mean of a
/// cell at its near end is that of its near corners alone.
pub proof fn law_cells_meet<R, K: Tabulation<Real = R>>(
    k: K,
    table: Table<R>,
    prop: int,
    a: Place<R>,
    b: Place<R>,
    u: R,
    v: R,
)
    requires
        b.i == a.i + 1,
        b.j == a.j,
        b.fp == a.fp,
        table.is_value(k, prop, a, u),
        table.is_value(k, prop, b, v),
        forall|lo: R, hi: R, lo2: R, hi2: R, past: R, past2: R, x: R, y: R|
            #[trigger] call_ensures(K::blend, (&k, (past, lo, past2, hi), a.ft, a.fp), x)
                && #[trigger] call_ensures(K::blend, (&k, (lo, lo2, hi, hi2), b.ft, a.fp), y)
                ==> x == y,
    ensures
        u == v,
{
    let (i, j) = (a.i as int, a.j as int);
    assert(table.at_node(prop, b.i as int, j) == table.at_node(prop, i + 1, j));
}

/// The smaller of two numbers.
pub open spec fn least(a: real, b: real) -> real {
    if a <= b {
        a
    } else {
        b
    }
}

/// The larger of two numbers.
pub open spec fn most(a: real, b: real) -> real {
    if a <= b {
        b
    } else {
        a
    }
}

/// `f` of the way from `a` to `b`.
pub open spec fn between(f: real, a: real, b: real) -> real {
    (1real - f) * a + f * b
}

/// The mean of a cell's corners is bilinear: linear between the corners along the
/// first axis, and linear along the second between what that gives.
pub open spec fn is_bilinear<K: Tabulation>(k: K, size: spec_fn(K::Real) -> real) -> bool {
    forall|a: K::Real, b: K::Real, c: K::Real, d: K::Real, ft: K::Real, fp: K::Real, v: K::Real|
        #[trigger] call_ensures(K::blend, (&k, (a, b, c, d), ft, fp), v) ==> size(v) == between(
            size(fp),
            between(size(ft), size(a), size(b)),
            between(size(ft), size(c), size(d)),
        )
}

proof fn lemma_between(f: real, a: real, b: real)
    requires
        0real <= f <= 1real,
    ensures
        least(a, b) <= between(f, a, b) <= most(a, b),
{
    let (lo, hi, g) = (least(a, b), most(a, b), 1real - f);
    lemma_keeps_order(lo, a, g);
    lemma_keeps_order(lo, b, f);
    lemma_keeps_order(a, hi, g);
    lemma_keeps_order(b, hi, f);
    lemma_distributes(g, f, lo);
    lemma_distributes(g, f, hi);
    assert(1real * lo == lo && 1real * hi == hi);
}

/// `v` lies between the smallest and the largest of the four corners of a cell.
pub open spec fn is_within_corners<R>(
    table: Table<R>,
    prop: int,
    c: Place<R>,
    size: spec_fn(R) -> real,
    v: R,
) -> bool {
    let (i, j) = (c.i as int, c.j as int);
    let (near, warm) = (size(table.at_node(prop, i, j)), size(table.at_node(prop, i + 1, j)));
    let (dense, far) = (
        size(table.at_node(prop, i, j + 1)),
        size(table.at_node(prop, i + 1, j + 1)),
    );
    &&& least(least(near, warm), least(dense, far)) <= size(v)
    &&& size(v) <= most(most(near, warm), most(dense, far))
}

/// A point on the axes is between the ends of its cell.
pub open spec fn is_inside_cells<K: Tabulation>(
    k: K,
    n_t: int,
    n_p: int,
    size: spec_fn(K::Real) -> real,
) -> bool {
    forall|t: K::Real, p: K::Real, c: Place<K::Real>| #[trigger]
        is_located(k, n_t, n_p, t, p, Ok(c)) ==> 0real <= size(c.ft) <= 1real && 0real <= size(c.fp)
            <= 1real
}

/// Interpolation makes no extremum: a property within a cell lies between the
/// smallest and the largest of the cell's four corners.
pub proof fn law_value_is_between_its_corners<R, K: Tabulation<Real = R>>(
    k: K,
    table: Table<R>,
    prop: int,
    c: Place<R>,
    v: R,
    size: spec_fn(R) -> real,
)
    requires
        table.is_value(k, prop, c, v),
        is_bilinear(k, size),
        0real <= size(c.ft) <= 1real,
        0real <= size(c.fp) <= 1real,
    ensures
        is_within_corners(table, prop, c, size, v),
{
    let (i, j) = (c.i as int, c.j as int);
    let (near, warm) = (size(table.at_node(prop, i, j)), size(table.at_node(prop, i + 1, j)));
    let (dense, far) = (
        size(table.at_node(prop, i, j + 1)),
        size(table.at_node(prop, i + 1, j + 1)),
    );
    let (s, t) = (size(c.ft), size(c.fp));
    lemma_between(s, near, warm);
    lemma_between(s, dense, far);
    lemma_between(t, between(s, near, warm), between(s, dense, far));
}

} // verus!

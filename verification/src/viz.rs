//! Side view of a beam: its central intensity slice, step by step.
use crate::field::Field;
use crate::optics::Optics;
use crate::plane::Plane;
use crate::propagate::is_intensity;
use vstd::prelude::*;

verus! {

/// Central intensity slices of a beam, one per recorded step.
#[derive(Debug, PartialEq)]
pub struct XzSliceMap<R> {
    rows: Vec<Vec<R>>,
}

impl<R> View for XzSliceMap<R> {
    type V = Seq<Seq<R>>;

    closed spec fn view(&self) -> Seq<Seq<R>> {
        self.rows@.map_values(|row: Vec<R>| row@)
    }
}

/// Every slice is of one length.
pub open spec fn is_even<R>(rows: Seq<Seq<R>>) -> bool {
    forall|z: int| 0 <= z < rows.len() ==> (#[trigger] rows[z]).len() == rows[0].len()
}

/// Length of the slices, nothing where there is none.
pub open spec fn slice_len<R>(rows: Seq<Seq<R>>) -> nat {
    if rows.len() == 0 {
        0
    } else {
        rows[0].len()
    }
}

/// `row` is the central row of a field's intensity.
pub open spec fn is_central_slice<K: Optics>(
    optics: K,
    field: Field<K::Real, K::Complex>,
    row: Seq<K::Real>,
) -> bool {
    exists|p: Plane<K::Real>| #[trigger]
        is_intensity(optics, field.grid.n as int, field.u, p) && row == p@[field.grid.n as int / 2]
}

impl<R> XzSliceMap<R> {
    pub fn new() -> (m: Self)
        ensures
            m@ == Seq::<Seq<R>>::empty(),
    {
        let m: Self = XzSliceMap { rows: Vec::new() };
        proof {
            assert(m@ =~= Seq::<Seq<R>>::empty());
        }
        m
    }

    /// A map of slices that are at hand.
    pub fn from_slices(rows: Vec<Vec<R>>) -> (m: Self)
        ensures
            m@.len() == rows@.len(),
            forall|z: int| 0 <= z < rows@.len() ==> #[trigger] m@[z] == rows@[z]@,
    {
        XzSliceMap { rows }
    }

    /// Number of recorded slices.
    pub fn len(&self) -> (n: usize)
        ensures
            n == self@.len(),
    {
        self.rows.len()
    }

    pub fn is_empty(&self) -> (b: bool)
        ensures
            b == (self@.len() == 0),
    {
        self.rows.len() == 0
    }
}

impl<R> Default for XzSliceMap<R> {
    fn default() -> (m: Self)
        ensures
            m@ == Seq::<Seq<R>>::empty(),
    {
        Self::new()
    }
}

impl<R: Copy> XzSliceMap<R> {
    /// Record the central row of a field's intensity.
    pub fn record<K: Optics<Real = R>>(&mut self, optics: &K, field: &Field<R, K::Complex>)
        requires
            field.valid(),
        ensures
            exists|row: Seq<R>| #[trigger]
                is_central_slice(*optics, *field, row) && final(self)@ == old(self)@.push(row),
    {
        let p: Plane<R> = field.intensity(optics);
        let mid: usize = field.grid.n / 2;
        let row: Vec<R> = p.row(mid);
        let ghost slice = row@;
        self.rows.push(row);
        proof {
            assert(is_intensity(*optics, field.grid.n as int, field.u, p));
            assert(is_central_slice(*optics, *field, slice));
            assert(self@ =~= old(self)@.push(slice));
        }
    }

    /// The slices as an array, positions down the rows and steps across the
    /// columns.
    pub fn to_array(&self) -> (a: Plane<R>)
        requires
            is_even(self@),
            slice_len(self@) * self@.len() <= usize::MAX,
        ensures
            a.wf(),
            a@.len() == slice_len(self@),
            a.spec_width() == self@.len(),
            forall|x: int, z: int|
                0 <= x < a@.len() && 0 <= z < self@.len() ==> #[trigger] a@[x][z] == self@[z][x],
    {
        let nz: usize = self.rows.len();
        let nx: usize = if nz == 0 {
            0
        } else {
            self.rows[0].len()
        };
        let rows: &Vec<Vec<R>> = &self.rows;
        proof {
            assert(nz > 0 ==> self@[0] == rows@[0]@);
            assert forall|z: int| 0 <= z < nz implies (#[trigger] rows@[z])@.len() == nx by {
                assert(self@[z] == rows@[z]@);
            }
        }
        let pick = |x: usize, z: usize| -> (v: R)
            requires
                z < rows@.len(),
                x < rows@[z as int]@.len(),
            ensures
                v == rows@[z as int]@[x as int],
            { rows[z][x] };
        Plane::from_fn(nx, nz, pick)
    }
}

} // verus!

//! Scalar optical fields on a grid, and the scale that makes an intensity
//! physical.
use crate::grid::{is_grid_size, offset_of, Grid};
use crate::optics::{is_above_zero, Optics};
use crate::plane::{is_fold, lemma_fold_widens, steps_of, Plane};
use vstd::prelude::*;

verus! {

/// Conversion from a field's own intensity units to physical ones, fixed from
/// the beam power and the launch field's power.
#[derive(Debug, Clone, Copy, PartialEq)]
pub struct IntensityScale<R> {
    per_unit: R,
}

/// Why a scale is refused.
#[derive(Debug, Clone, Copy, PartialEq, Eq, Structural)]
pub enum ScaleError {
    BadBeamPower,
    BadFieldPower,
}

impl<R: Copy> IntensityScale<R> {
    pub closed spec fn spec_per_unit(self) -> R {
        self.per_unit
    }

    /// Pin the scale. A power that is not positive and finite is refused: the
    /// scale would silently switch off whatever asked for it.
    pub fn from_beam_power<K: Optics<Real = R>>(optics: &K, beam_power: R, field_power: R) -> (r:
        Result<Self, ScaleError>)
        ensures
            match r {
                Ok(s) => {
                    &&& call_ensures(K::is_positive, (optics, beam_power), true)
                    &&& call_ensures(K::is_positive, (optics, field_power), true)
                    &&& call_ensures(
                        K::ratio,
                        (optics, beam_power, field_power),
                        s.spec_per_unit(),
                    )
                },
                Err(ScaleError::BadBeamPower) => {
                    call_ensures(K::is_positive, (optics, beam_power), false)
                },
                Err(ScaleError::BadFieldPower) => {
                    &&& call_ensures(K::is_positive, (optics, beam_power), true)
                    &&& call_ensures(K::is_positive, (optics, field_power), false)
                },
            },
    {
        if !optics.is_positive(beam_power) {
            return Err(ScaleError::BadBeamPower);
        }
        if !optics.is_positive(field_power) {
            return Err(ScaleError::BadFieldPower);
        }
        Ok(IntensityScale { per_unit: optics.ratio(beam_power, field_power) })
    }

    /// Physical intensity per unit of the field's own.
    pub fn per_unit_intensity(&self) -> (r: R)
        ensures
            r == self.spec_per_unit(),
    {
        self.per_unit
    }

    /// One intensity in physical units.
    pub fn to_physical<K: Optics<Real = R>>(&self, optics: &K, intensity: R) -> (r: R)
        ensures
            call_ensures(K::times, (optics, self.spec_per_unit(), intensity), r),
    {
        optics.times(self.per_unit, intensity)
    }

    /// A map of intensities in physical units.
    pub fn map_to_physical<K: Optics<Real = R>>(&self, optics: &K, intensity: &Plane<R>) -> (p:
        Plane<R>)
        requires
            intensity.wf(),
        ensures
            p.wf(),
            p@.len() == intensity@.len(),
            p.spec_width() == intensity.spec_width(),
            forall|j: int, i: int|
                0 <= j < p@.len() && 0 <= i < p.spec_width() ==> call_ensures(
                    K::times,
                    (optics, self.spec_per_unit(), intensity@[j][i]),
                    #[trigger] p@[j][i],
                ),
    {
        let scale: R = self.per_unit;
        let f = |v: R| -> (r: R)
            ensures
                call_ensures(K::times, (optics, scale, v), r),
            { optics.times(scale, v) };
        intensity.map(f)
    }
}

/// A monochromatic scalar field sampled on a grid, indexed `[iy, ix]`.
#[derive(Debug, PartialEq)]
pub struct Field<R, C> {
    pub grid: Grid<R>,
    pub wavelength: R,
    pub u: Plane<C>,
}

impl<R, C> Field<R, C> {
    /// The amplitude is that of the grid, and every index of it is a signed
    /// number.
    pub open spec fn valid(&self) -> bool {
        &&& is_grid_size(self.grid.n as int)
        &&& self.grid.n <= isize::MAX
        &&& self.grid.n * self.grid.n <= usize::MAX
        &&& self.u.wf()
        &&& self.u@.len() == self.grid.n
        &&& self.u.spec_width() == self.grid.n
    }
}

/// The running power sum: each intensity added.
pub open spec fn adds_intensity<K: Optics>(optics: K) -> spec_fn(
    K::Real,
    int,
    int,
    K::Complex,
    K::Real,
) -> bool {
    |s: K::Real, j: int, i: int, u: K::Complex, next: K::Real|
        exists|p: K::Real|
            #[trigger] call_ensures(K::intensity, (&optics, u), p) && call_ensures(
                K::plus,
                (&optics, s, p),
                next,
            )
}

/// The running peak: the larger of each intensity and the peak before it.
pub open spec fn raises_peak<K: Optics>(optics: K) -> spec_fn(
    K::Real,
    int,
    int,
    K::Complex,
    K::Real,
) -> bool {
    |s: K::Real, j: int, i: int, u: K::Complex, next: K::Real|
        exists|p: K::Real|
            #[trigger] call_ensures(K::intensity, (&optics, u), p) && call_ensures(
                K::larger,
                (&optics, s, p),
                next,
            )
}

/// `power` is the power of an amplitude.
pub open spec fn is_power<K: Optics>(
    optics: K,
    rows: Seq<Seq<K::Complex>>,
    width: nat,
    power: K::Real,
) -> bool {
    exists|zero: K::Real, sum: K::Real|
        {
            &&& #[trigger] call_ensures(K::zero, (&optics,), zero)
            &&& #[trigger] is_fold(rows, width, zero, adds_intensity(optics), sum)
            &&& call_ensures(K::power, (&optics, sum), power)
        }
}

impl<R: Copy, C: Copy> Field<R, C> {
    /// A circular Gaussian beam of waist `w0`, centred on the grid.
    pub fn gaussian<K: Optics<Real = R, Complex = C>>(
        optics: &K,
        grid: Grid<R>,
        wavelength: R,
        w0: R,
    ) -> (f: Self)
        requires
            is_grid_size(grid.n as int),
            grid.n <= isize::MAX,
            grid.n * grid.n <= usize::MAX,
            is_above_zero(*optics, wavelength),
            is_above_zero(*optics, w0),
        ensures
            f.valid(),
            f.grid == grid,
            f.wavelength == wavelength,
            forall|j: int, i: int|
                0 <= j < grid.n && 0 <= i < grid.n ==> call_ensures(
                    K::gaussian,
                    (
                        optics,
                        w0,
                        offset_of(grid.n as int, i) as isize,
                        offset_of(grid.n as int, j) as isize,
                    ),
                    #[trigger] f.u@[j][i],
                ),
    {
        let sample = |j: usize, i: usize| -> (u: C)
            requires
                j < grid.n,
                i < grid.n,
                grid.n <= isize::MAX,
            ensures
                call_ensures(
                    K::gaussian,
                    (
                        optics,
                        w0,
                        offset_of(grid.n as int, i as int) as isize,
                        offset_of(grid.n as int, j as int) as isize,
                    ),
                    u,
                ),
            {
                let x: isize = grid.offset(i);
                let y: isize = grid.offset(j);
                optics.gaussian(w0, x, y)
            };
        let u: Plane<C> = Plane::from_fn(grid.n, grid.n, sample);
        Field { grid, wavelength, u }
    }

    /// Replace the amplitude by one of the grid's shape; another is refused.
    pub fn set_u(&mut self, u: Plane<C>) -> (r: Result<(), (usize, usize)>)
        requires
            old(self).valid(),
        ensures
            final(self).valid(),
            final(self).grid == old(self).grid,
            final(self).wavelength == old(self).wavelength,
            match r {
                Ok(_) => final(self).u == u,
                Err(shape) => {
                    &&& final(self).u == old(self).u
                    &&& shape == (u@.len() as usize, u.spec_width() as usize)
                    &&& !(u.wf() && u@.len() == old(self).grid.n && u.spec_width()
                        == old(self).grid.n)
                },
            },
    {
        if !u.has_shape(self.grid.n, self.grid.n) {
            return Err((u.height(), u.width()));
        }
        self.u = u;
        Ok(())
    }

    /// Intensity at every sample.
    pub fn intensity<K: Optics<Real = R, Complex = C>>(&self, optics: &K) -> (p: Plane<R>)
        requires
            self.valid(),
        ensures
            p.wf(),
            p@.len() == self.grid.n,
            p.spec_width() == self.grid.n,
            forall|j: int, i: int|
                0 <= j < p@.len() && 0 <= i < p.spec_width() ==> call_ensures(
                    K::intensity,
                    (optics, self.u@[j][i]),
                    #[trigger] p@[j][i],
                ),
    {
        let f = |u: C| -> (r: R)
            ensures
                call_ensures(K::intensity, (optics, u), r),
            { optics.intensity(u) };
        self.u.map(f)
    }

    /// Total power.
    pub fn power<K: Optics<Real = R, Complex = C>>(&self, optics: &K) -> (power: R)
        requires
            self.valid(),
        ensures
            is_power(*optics, self.u@, self.u.spec_width(), power),
    {
        let zero: R = optics.zero();
        let step = |s: R, _j: usize, _i: usize, u: C| -> (next: R)
            ensures
                exists|p: R|
                    #[trigger] call_ensures(K::intensity, (optics, u), p) && call_ensures(
                        K::plus,
                        (optics, s, p),
                        next,
                    ),
            {
                let p: R = optics.intensity(u);
                optics.plus(s, p)
            };
        let sum: R = self.u.fold(zero, step);
        proof {
            lemma_fold_widens(
                self.u@,
                self.u.spec_width(),
                zero,
                steps_of(step),
                adds_intensity(*optics),
                sum,
            );
        }
        optics.power(sum)
    }

    /// Physical intensity at every sample.
    pub fn physical_intensity<K: Optics<Real = R, Complex = C>>(
        &self,
        optics: &K,
        scale: IntensityScale<R>,
    ) -> (p: Plane<R>)
        requires
            self.valid(),
        ensures
            p.wf(),
            p@.len() == self.grid.n,
            p.spec_width() == self.grid.n,
            forall|j: int, i: int|
                0 <= j < p@.len() && 0 <= i < p.spec_width() ==> is_scaled_intensity(
                    *optics,
                    scale,
                    self.u@[j][i],
                    #[trigger] p@[j][i],
                ),
    {
        let intensity: Plane<R> = self.intensity(optics);
        scale.map_to_physical(optics, &intensity)
    }

    /// Peak physical intensity over the plane.
    pub fn peak_physical_intensity<K: Optics<Real = R, Complex = C>>(
        &self,
        optics: &K,
        scale: IntensityScale<R>,
    ) -> (peak: R)
        requires
            self.valid(),
        ensures
            exists|zero: R, top: R|
                {
                    &&& #[trigger] call_ensures(K::zero, (optics,), zero)
                    &&& #[trigger] is_fold(
                        self.u@,
                        self.u.spec_width(),
                        zero,
                        raises_peak(*optics),
                        top,
                    )
                    &&& call_ensures(K::times, (optics, scale.spec_per_unit(), top), peak)
                },
    {
        let zero: R = optics.zero();
        let step = |s: R, _j: usize, _i: usize, u: C| -> (next: R)
            ensures
                exists|p: R|
                    #[trigger] call_ensures(K::intensity, (optics, u), p) && call_ensures(
                        K::larger,
                        (optics, s, p),
                        next,
                    ),
            {
                let p: R = optics.intensity(u);
                optics.larger(s, p)
            };
        let top: R = self.u.fold(zero, step);
        proof {
            lemma_fold_widens(
                self.u@,
                self.u.spec_width(),
                zero,
                steps_of(step),
                raises_peak(*optics),
                top,
            );
        }
        scale.to_physical(optics, top)
    }
}

/// `v` is the physical intensity of an amplitude.
pub open spec fn is_scaled_intensity<K: Optics>(
    optics: K,
    scale: IntensityScale<K::Real>,
    u: K::Complex,
    v: K::Real,
) -> bool {
    exists|p: K::Real|
        #[trigger] call_ensures(K::intensity, (&optics, u), p) && call_ensures(
            K::times,
            (&optics, scale.spec_per_unit(), p),
            v,
        )
}

} // verus!

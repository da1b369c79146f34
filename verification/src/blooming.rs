//! Steady thermal blooming in a crosswind: the beam heats the air, the wind
//! carries the heat downwind, and the heated air refracts the beam.
//!
//! The temperature at a sample is the absorbed intensity integrated along its
//! row from the upwind edge. The arithmetic belongs to a [`Heating`].
use crate::airprops::AirProperties;
use crate::grid::Grid;
use crate::medium::{is_uniform, Medium};
use crate::optics::Optics;
use crate::plane::Plane;
use vstd::prelude::*;

verus! {

/// Why a blooming medium is refused.
#[derive(Debug, Clone, Copy, PartialEq)]
pub enum BloomingError<R> {
    BadWind,
    BadBeamPower,
    /// The launched field carries no power.
    NoFieldPower,
    BadAbsorption,
    /// Conduction across the beam is not negligible at the given Péclet number: raise
    /// the wind or the beam size.
    NotConvective { peclet: R },
}

/// Why a blooming medium refuses a beam.
#[derive(Debug, Clone, Copy, PartialEq, Eq, Structural)]
pub enum BloomingRefusal {
    /// The intensity is not an array.
    IntensityShape,
    /// The heating is beyond the small-perturbation model.
    TooHot,
}

/// The arithmetic of the heating.
pub trait Heating: Optics {
    /// Whether a field power is zero or negative.
    fn lacks_power(&self, power: Self::Real) -> bool;

    /// Whether an absorption is finite and not negative.
    fn is_absorption(&self, alpha: Self::Real) -> bool;

    fn peclet(&self, air: AirProperties<Self::Real>, wind: Self::Real, width: Self::Real) -> Self::Real;

    /// Whether a Péclet number is that of convection.
    fn is_convective(&self, peclet: Self::Real) -> bool;

    /// Temperature rise per intensity integral.
    fn heat_coefficient(
        &self,
        alpha: Self::Real,
        air: AirProperties<Self::Real>,
        wind: Self::Real,
    ) -> Self::Real;

    /// Decay over half a slab.
    fn midpoint_decay(&self, alpha: Self::Real, dz: Self::Real) -> Self::Real;

    /// Index drop per intensity integral.
    fn index_drop(
        &self,
        index_coeff: Self::Real,
        heat_coeff: Self::Real,
        scale: Self::Real,
        decay: Self::Real,
    ) -> Self::Real;

    /// An intensity integral with the trapezoid between two samples, `dx` apart,
    /// added.
    fn trapezoid(
        &self,
        cum: Self::Real,
        before: Self::Real,
        at: Self::Real,
        dx: Self::Real,
    ) -> Self::Real;

    /// Temperature rise of an intensity integral.
    fn rise(&self, heat_coeff: Self::Real, scale: Self::Real, cum: Self::Real) -> Self::Real;

    /// Whether a temperature rise is small against the ambient temperature.
    fn is_small(&self, rise: Self::Real, t0: Self::Real) -> bool;
}

/// What a blooming medium is, mathematically.
pub struct Bloom<R> {
    pub n: usize,
    /// Spacing of the samples along the wind.
    pub dx: R,
    /// Physical intensity per squared amplitude.
    pub scale: R,
    pub heat_coeff: R,
    pub index_coeff: R,
    pub t0: R,
    pub alpha: R,
}

/// A medium heated by the beam in a uniform crosswind.
#[derive(Debug, PartialEq)]
pub struct ThermalBlooming<R> {
    n: usize,
    dx: R,
    intensity_scale: R,
    heat_coeff: R,
    index_coeff: R,
    t0: R,
    alpha_abs: R,
}

impl<R> View for ThermalBlooming<R> {
    type V = Bloom<R>;

    closed spec fn view(&self) -> Bloom<R> {
        Bloom {
            n: self.n,
            dx: self.dx,
            scale: self.intensity_scale,
            heat_coeff: self.heat_coeff,
            index_coeff: self.index_coeff,
            t0: self.t0,
            alpha: self.alpha_abs,
        }
    }
}

impl<R> ThermalBlooming<R> {
    #[verifier::type_invariant]
    spec fn fits(self) -> bool {
        self.n * self.n <= usize::MAX
    }
}

/// What building a blooming medium may return: the checks in order.
pub open spec fn is_blooming<K: Heating>(
    k: K,
    grid: Grid<K::Real>,
    air: AirProperties<K::Real>,
    alpha: K::Real,
    wind: K::Real,
    beam_power: K::Real,
    field_power: K::Real,
    width: K::Real,
    t0: K::Real,
    r: Result<ThermalBlooming<K::Real>, BloomingError<K::Real>>,
) -> bool {
    let windy = call_ensures(K::is_positive, (&k, wind), true);
    let powered = windy && call_ensures(K::is_positive, (&k, beam_power), true);
    let lit = powered && call_ensures(K::lacks_power, (&k, field_power), false);
    let absorbing = lit && call_ensures(K::is_absorption, (&k, alpha), true);
    match r {
        Err(BloomingError::BadWind) => call_ensures(K::is_positive, (&k, wind), false),
        Err(BloomingError::BadBeamPower) => {
            windy && call_ensures(K::is_positive, (&k, beam_power), false)
        },
        Err(BloomingError::NoFieldPower) => {
            powered && call_ensures(K::lacks_power, (&k, field_power), true)
        },
        Err(BloomingError::BadAbsorption) => {
            lit && call_ensures(K::is_absorption, (&k, alpha), false)
        },
        Err(BloomingError::NotConvective { peclet }) => {
            &&& absorbing
            &&& call_ensures(K::peclet, (&k, air, wind, width), peclet)
            &&& call_ensures(K::is_convective, (&k, peclet), false)
        },
        Ok(m) => {
            &&& absorbing
            &&& is_convection(k, air, wind, width, true)
            &&& m@.n == grid.n
            &&& m@.dx == grid.dx
            &&& call_ensures(K::ratio, (&k, beam_power, field_power), m@.scale)
            &&& call_ensures(K::heat_coefficient, (&k, alpha, air, wind), m@.heat_coeff)
            &&& call_ensures(K::ratio, (&k, air.n_minus_1, t0), m@.index_coeff)
            &&& m@.t0 == t0
            &&& m@.alpha == alpha
        },
    }
}

/// Whether the wind carries the heat faster than conduction spreads it.
pub open spec fn is_convection<K: Heating>(
    k: K,
    air: AirProperties<K::Real>,
    wind: K::Real,
    width: K::Real,
    convective: bool,
) -> bool {
    exists|peclet: K::Real| #[trigger]
        call_ensures(K::peclet, (&k, air, wind, width), peclet) && call_ensures(
            K::is_convective,
            (&k, peclet),
            convective,
        )
}

/// `top` is the larger of `before` and the rise at an intensity integral.
pub open spec fn is_hottest<K: Heating>(
    k: K,
    m: Bloom<K::Real>,
    cum: K::Real,
    before: K::Real,
    top: K::Real,
) -> bool {
    exists|rise: K::Real|
        {
            &&& #[trigger] call_ensures(K::rise, (&k, m.heat_coeff, m.scale, cum), rise)
            &&& {
                ||| call_ensures(K::exceeds, (&k, rise, before), true) && top == rise
                ||| call_ensures(K::exceeds, (&k, rise, before), false) && top == before
            }
        }
}

/// Sample `i` of a heated row, from the one before.
pub open spec fn is_heated_sample<K: Heating>(
    k: K,
    m: Bloom<K::Real>,
    drop: K::Real,
    intensity: Seq<K::Real>,
    dn: Seq<K::Real>,
    cums: Seq<K::Real>,
    tops: Seq<K::Real>,
    i: int,
) -> bool {
    &&& call_ensures(
        K::trapezoid,
        (&k, cums[i - 1], intensity[i - 1], intensity[i], m.dx),
        cums[i],
    )
    &&& call_ensures(K::times, (&k, drop, cums[i]), dn[i])
    &&& is_hottest(k, m, cums[i], tops[i - 1], tops[i])
}

/// The first samples of a heated row: `cums` the intensity integrals from the
/// upwind edge, `tops` the hottest rise so far.
pub open spec fn is_heated_run<K: Heating>(
    k: K,
    m: Bloom<K::Real>,
    drop: K::Real,
    intensity: Seq<K::Real>,
    before: K::Real,
    dn: Seq<K::Real>,
    cums: Seq<K::Real>,
    tops: Seq<K::Real>,
) -> bool {
    &&& 0 < dn.len() == cums.len() == tops.len() <= intensity.len()
    &&& call_ensures(K::zero, (&k,), dn[0])
    &&& call_ensures(K::zero, (&k,), cums[0])
    &&& tops[0] == before
    &&& forall|i: int|
        0 < i < dn.len() ==> #[trigger] is_heated_sample(
            k,
            m,
            drop,
            intensity,
            dn,
            cums,
            tops,
            i,
        )
}

/// `dn` is the index perturbation of a row, and `after` the hottest rise up to
/// its end.
pub open spec fn is_heated_row<K: Heating>(
    k: K,
    m: Bloom<K::Real>,
    drop: K::Real,
    intensity: Seq<K::Real>,
    before: K::Real,
    dn: Seq<K::Real>,
    after: K::Real,
) -> bool {
    exists|cums: Seq<K::Real>, tops: Seq<K::Real>|
        {
            &&& #[trigger] is_heated_run(k, m, drop, intensity, before, dn, cums, tops)
            &&& dn.len() == intensity.len()
            &&& tops.last() == after
        }
}

/// Row `j` of a heated slab.
pub open spec fn is_heated_at<K: Heating>(
    k: K,
    m: Bloom<K::Real>,
    drop: K::Real,
    intensity: Seq<Seq<K::Real>>,
    dn: Seq<Seq<K::Real>>,
    tops: Seq<K::Real>,
    j: int,
) -> bool {
    is_heated_row(k, m, drop, intensity[j], tops[j], dn[j], tops[j + 1])
}

/// The index perturbation of a slab, and `tops[j]` the hottest rise above row
/// `j`.
pub open spec fn is_heated<K: Heating>(
    k: K,
    m: Bloom<K::Real>,
    drop: K::Real,
    intensity: Plane<K::Real>,
    dn: Plane<K::Real>,
    tops: Seq<K::Real>,
) -> bool {
    &&& dn.wf()
    &&& dn@.len() == intensity@.len()
    &&& dn.spec_width() == intensity.spec_width()
    &&& tops.len() == intensity@.len() + 1
    &&& call_ensures(K::zero, (&k,), tops[0])
    &&& intensity.spec_width() > 0 ==> forall|j: int|
        0 <= j < intensity@.len() ==> #[trigger] is_heated_at(
            k,
            m,
            drop,
            intensity@,
            dn@,
            tops,
            j,
        )
    &&& intensity.spec_width() == 0 ==> tops.last() == tops[0]
}

/// The index drop per intensity integral at the middle of a slab.
pub open spec fn is_drop<K: Heating>(k: K, m: Bloom<K::Real>, dz: K::Real, drop: K::Real) -> bool {
    exists|decay: K::Real| #[trigger]
        call_ensures(K::midpoint_decay, (&k, m.alpha, dz), decay) && call_ensures(
            K::index_drop,
            (&k, m.index_coeff, m.heat_coeff, m.scale, decay),
            drop,
        )
}

/// What a slab's response to an intensity may be.
pub open spec fn is_response<K: Heating>(
    k: K,
    m: Bloom<K::Real>,
    intensity: Plane<K::Real>,
    dz: K::Real,
    r: Result<Plane<K::Real>, BloomingRefusal>,
) -> bool {
    match r {
        Err(BloomingRefusal::IntensityShape) => !intensity.wf(),
        Err(BloomingRefusal::TooHot) => intensity.wf() && exists|dn: Plane<K::Real>| #[trigger]
            is_slab_heated(k, m, intensity, dz, dn, false),
        Ok(dn) => intensity.wf() && is_slab_heated(k, m, intensity, dz, dn, true),
    }
}

/// `dn` is the index perturbation of a slab; `small` says whether its hottest
/// rise is.
pub open spec fn is_slab_heated<K: Heating>(
    k: K,
    m: Bloom<K::Real>,
    intensity: Plane<K::Real>,
    dz: K::Real,
    dn: Plane<K::Real>,
    small: bool,
) -> bool {
    exists|drop: K::Real, tops: Seq<K::Real>|
        {
            &&& is_drop(k, m, dz, drop)
            &&& #[trigger] is_heated(k, m, drop, intensity, dn, tops)
            &&& call_ensures(K::is_small, (&k, tops.last(), m.t0), small)
        }
}

impl<R: Copy> ThermalBlooming<R> {
    /// A blooming medium. `field_power` is the power of the launched field in its
    /// own units, `width` the beam width by which convection is judged.
    pub fn new<K: Heating + Optics<Real = R>>(
        k: &K,
        grid: Grid<R>,
        air: AirProperties<R>,
        alpha_abs: R,
        wind_speed: R,
        beam_power: R,
        initial_field_power: R,
        beam_width: R,
        t0: R,
    ) -> (r: Result<Self, BloomingError<R>>)
        requires
            grid.n * grid.n <= usize::MAX,
        ensures
            is_blooming(
                *k,
                grid,
                air,
                alpha_abs,
                wind_speed,
                beam_power,
                initial_field_power,
                beam_width,
                t0,
                r,
            ),
    {
        if !k.is_positive(wind_speed) {
            return Err(BloomingError::BadWind);
        }
        if !k.is_positive(beam_power) {
            return Err(BloomingError::BadBeamPower);
        }
        if k.lacks_power(initial_field_power) {
            return Err(BloomingError::NoFieldPower);
        }
        if !k.is_absorption(alpha_abs) {
            return Err(BloomingError::BadAbsorption);
        }
        let peclet: R = k.peclet(air, wind_speed, beam_width);
        let convective: bool = k.is_convective(peclet);
        proof {
            assert(is_convection(*k, air, wind_speed, beam_width, convective));
        }
        if !convective {
            return Err(BloomingError::NotConvective { peclet });
        }
        Ok(
            ThermalBlooming {
                n: grid.n,
                dx: grid.dx,
                intensity_scale: k.ratio(beam_power, initial_field_power),
                heat_coeff: k.heat_coefficient(alpha_abs, air, wind_speed),
                index_coeff: k.ratio(air.n_minus_1, t0),
                t0,
                alpha_abs,
            },
        )
    }

    /// Index perturbation of a row and the hottest rise up to its end.
    fn heat_row<K: Heating + Optics<Real = R>>(
        &self,
        k: &K,
        drop: R,
        intensity: &[R],
        before: R,
    ) -> (out: (Vec<R>, R))
        requires
            intensity@.len() > 0,
        ensures
            is_heated_row(*k, self@, drop, intensity@, before, out.0@, out.1),
            out.0@.len() == intensity@.len(),
    {
        let mut dn: Vec<R> = Vec::with_capacity(intensity.len());
        let mut cum: R = k.zero();
        let mut top: R = before;
        let edge: R = k.zero();
        dn.push(edge);
        let ghost mut cums: Seq<R> = seq![cum];
        let ghost mut tops: Seq<R> = seq![top];
        let mut i: usize = 1;
        while i < intensity.len()
            invariant
                1 <= i <= intensity@.len(),
                dn@.len() == i,
                cums.len() == i,
                cums.last() == cum,
                tops.last() == top,
                is_heated_run(*k, self@, drop, intensity@, before, dn@, cums, tops),
            decreases intensity@.len() - i,
        {
            let ghost dn0 = dn@;
            let next: R = k.trapezoid(cum, intensity[i - 1], intensity[i], self.dx);
            let d: R = k.times(drop, next);
            let rise: R = k.rise(self.heat_coeff, self.intensity_scale, next);
            let hotter: bool = k.exceeds(rise, top);
            let hottest: R = if hotter {
                rise
            } else {
                top
            };
            dn.push(d);
            proof {
                assert(is_hottest(*k, self@, next, top, hottest));
                let c2 = cums.push(next);
                let t2 = tops.push(hottest);
                assert forall|l: int| 0 < l < dn@.len() implies #[trigger] is_heated_sample(
                    *k,
                    self@,
                    drop,
                    intensity@,
                    dn@,
                    c2,
                    t2,
                    l,
                ) by {
                    if l < i {
                        assert(is_heated_sample(
                            *k,
                            self@,
                            drop,
                            intensity@,
                            dn0,
                            cums,
                            tops,
                            l,
                        ));
                    }
                }
                cums = c2;
                tops = t2;
                assert(is_heated_run(*k, self@, drop, intensity@, before, dn@, cums, tops));
            }
            cum = next;
            top = hottest;
            i = i + 1;
        }
        (dn, top)
    }
}

impl<R: Copy, K: Heating + Optics<Real = R>> Medium<K> for ThermalBlooming<R> {
    type Refusal = BloomingRefusal;

    /// An array without samples: this medium has no index of its own.
    fn index_perturbation(&self, optics: &K, z_slab: usize) -> (p: Plane<R>)
        ensures
            p.wf(),
            p@.len() == 0,
    {
        let zero: R = optics.zero();
        Plane::filled(0, 0, zero)
    }

    fn needs_intensity(&self, optics: &K) -> (b: bool)
        ensures
            b,
    {
        true
    }

    fn index_response(
        &self,
        optics: &K,
        z_slab: usize,
        intensity: &Plane<R>,
        dz: R,
    ) -> (r: Result<Plane<R>, BloomingRefusal>)
        ensures
            is_response(*optics, self@, *intensity, dz, r),
    {
        let (ny, nx): (usize, usize) = (intensity.height(), intensity.width());
        if !intensity.has_shape(ny, nx) {
            return Err(BloomingRefusal::IntensityShape);
        }
        let decay: R = optics.midpoint_decay(self.alpha_abs, dz);
        let drop: R = optics.index_drop(
            self.index_coeff,
            self.heat_coeff,
            self.intensity_scale,
            decay,
        );
        proof {
            assert(is_drop(*optics, self@, dz, drop));
        }
        let blank: R = optics.zero();
        let mut dn: Plane<R> = Plane::filled(ny, nx, blank);
        let mut top: R = optics.zero();
        let ghost mut tops: Seq<R> = seq![top];
        if nx > 0 {
            for j in 0..ny
                invariant
                    intensity.wf(),
                    intensity@.len() == ny,
                    intensity.spec_width() == nx,
                    nx > 0,
                    dn.wf(),
                    dn@.len() == ny,
                    dn.spec_width() == nx,
                    tops.len() == j + 1,
                    tops.last() == top,
                    call_ensures(K::zero, (optics,), tops[0]),
                    forall|l: int|
                        0 <= l < j ==> #[trigger] is_heated_at(
                            *optics,
                            self@,
                            drop,
                            intensity@,
                            dn@,
                            tops,
                            l,
                        ),
            {
                let row: Vec<R> = intensity.row(j);
                let ghost dn0 = dn@;
                let (line, after): (Vec<R>, R) = self.heat_row(optics, drop, row.as_slice(), top);
                dn.set_row(j, line.as_slice());
                proof {
                    let t2 = tops.push(after);
                    assert forall|l: int| 0 <= l < j + 1 implies #[trigger] is_heated_at(
                        *optics,
                        self@,
                        drop,
                        intensity@,
                        dn@,
                        t2,
                        l,
                    ) by {
                        if l < j {
                            assert(is_heated_at(
                                *optics,
                                self@,
                                drop,
                                intensity@,
                                dn0,
                                tops,
                                l,
                            ));
                            assert(dn@[l] == dn0[l]);
                        } else {
                            assert(dn@[l] == line@);
                        }
                    }
                    tops = t2;
                }
                top = after;
            }
        } else {
            proof {
                tops = Seq::new((ny + 1) as nat, |l: int| top);
            }
        }
        let small: bool = optics.is_small(top, self.t0);
        proof {
            assert(is_heated(*optics, self@, drop, *intensity, dn, tops));
            assert(is_slab_heated(*optics, self@, *intensity, dz, dn, small));
        }
        if !small {
            return Err(BloomingRefusal::TooHot);
        }
        Ok(dn)
    }

    fn extinction(&self, optics: &K, z_slab: usize) -> (r: Option<Plane<R>>)
        ensures
            match r {
                None => call_ensures(K::is_zero, (optics, self@.alpha), true),
                Some(p) => {
                    &&& call_ensures(K::is_zero, (optics, self@.alpha), false)
                    &&& is_uniform(p, self@.n as int, self@.alpha)
                },
            },
    {
        proof {
            use_type_invariant(self);
        }
        if optics.is_zero(self.alpha_abs) {
            None
        } else {
            Some(Plane::filled(self.n, self.n, self.alpha_abs))
        }
    }
}

/// Heat only gathers downwind: where every sample adds to the intensity
/// integral, the integral at a sample is at least that at any sample upwind.
pub proof fn law_heat_gathers_downwind<K: Heating>(
    k: K,
    m: Bloom<K::Real>,
    drop: K::Real,
    intensity: Seq<K::Real>,
    before: K::Real,
    dn: Seq<K::Real>,
    cums: Seq<K::Real>,
    tops: Seq<K::Real>,
    size: spec_fn(K::Real) -> real,
    i: int,
    j: int,
)
    requires
        is_heated_run(k, m, drop, intensity, before, dn, cums, tops),
        forall|c: K::Real, a: K::Real, b: K::Real, d: K::Real|
            size(a) >= 0real && size(b) >= 0real && #[trigger] call_ensures(
                K::trapezoid,
                (&k, c, a, b, m.dx),
                d,
            )
                ==> size(d) >= size(c),
        forall|l: int| 0 <= l < intensity.len() ==> size(#[trigger] intensity[l]) >= 0real,
        0 <= i <= j < cums.len(),
    ensures
        size(cums[i]) <= size(cums[j]),
    decreases j - i,
{
    if i < j {
        law_heat_gathers_downwind(
            k,
            m,
            drop,
            intensity,
            before,
            dn,
            cums,
            tops,
            size,
            i,
            j - 1,
        );
        assert(is_heated_sample(k, m, drop, intensity, dn, cums, tops, j));
        assert(size(intensity[j - 1]) >= 0real && size(intensity[j]) >= 0real);
    }
}

} // verus!

//! References that a solver is measured against: the exact solution of the
//! Riemann problem, and the exponent of a power law.
//!
//! The solution shares nothing with the solver but the states it joins. Its
//! formulas belong to a [`Waves`].
use crate::euler1d::Primitive;
use vstd::prelude::*;

verus! {

/// Most iterations on the star pressure.
pub const MAX_NEWTON: usize = 100;

/// Why a Riemann problem has no solution here.
#[derive(Debug, Clone, Copy, PartialEq, Eq, Structural)]
pub enum RiemannError {
    /// The two sides part so fast that a vacuum opens between them.
    Vacuum,
    /// The star pressure did not converge.
    NotConverged,
}

/// The formulas of the waves of an ideal gas.
pub trait Waves: Sized {
    type Real: Copy;

    fn sound_speed(&self, side: Primitive<Self::Real>) -> Self::Real;

    /// Whether two sides generate a vacuum.
    fn generates_vacuum(
        &self,
        left: Primitive<Self::Real>,
        right: Primitive<Self::Real>,
        cl: Self::Real,
        cr: Self::Real,
    ) -> bool;

    /// First guess at the star pressure.
    fn first_guess(
        &self,
        left: Primitive<Self::Real>,
        right: Primitive<Self::Real>,
        cl: Self::Real,
        cr: Self::Real,
    ) -> Self::Real;

    /// Whether a star pressure drives a shock into a side.
    fn is_shock(&self, p: Self::Real, side: Primitive<Self::Real>) -> bool;

    /// Velocity jump across a shock, and its slope.
    fn shock(&self, p: Self::Real, side: Primitive<Self::Real>) -> (Self::Real, Self::Real);

    /// Velocity jump across a rarefaction, and its slope.
    fn rarefaction(&self, p: Self::Real, side: Primitive<Self::Real>) -> (Self::Real, Self::Real);

    /// A Newton step on the star pressure, kept positive.
    fn newton(
        &self,
        p: Self::Real,
        fl: (Self::Real, Self::Real),
        fr: (Self::Real, Self::Real),
        left: Primitive<Self::Real>,
        right: Primitive<Self::Real>,
    ) -> Self::Real;

    /// Whether an iteration from `p` to `next` has converged.
    fn is_converged(&self, next: Self::Real, p: Self::Real) -> bool;

    /// Velocity between the waves.
    fn star_velocity(
        &self,
        left: Primitive<Self::Real>,
        right: Primitive<Self::Real>,
        fl: Self::Real,
        fr: Self::Real,
    ) -> Self::Real;

    fn negate(&self, x: Self::Real) -> Self::Real;

    /// Whether `a <= b`.
    fn is_at_most(&self, a: Self::Real, b: Self::Real) -> bool;

    fn ratio(&self, a: Self::Real, b: Self::Real) -> Self::Real;

    /// Star pressure over a side's.
    fn compression(&self, p: Self::Real, side: Primitive<Self::Real>) -> Self::Real;

    /// Whether a compression is that of a shock.
    fn is_compressive(&self, compression: Self::Real) -> bool;

    /// Speed of a shock that runs into a left side.
    fn shock_speed(&self, side: Primitive<Self::Real>, compression: Self::Real) -> Self::Real;

    /// Density behind such a shock.
    fn shocked_density(&self, side: Primitive<Self::Real>, compression: Self::Real) -> Self::Real;

    /// Speed of the head of a rarefaction into a left side.
    fn head_speed(&self, side: Primitive<Self::Real>) -> Self::Real;

    /// Speed of its tail.
    fn tail_speed(
        &self,
        side: Primitive<Self::Real>,
        u: Self::Real,
        compression: Self::Real,
    ) -> Self::Real;

    /// Density behind the tail.
    fn expanded_density(&self, side: Primitive<Self::Real>, compression: Self::Real) -> Self::Real;

    /// State inside the fan along a ray.
    fn fan(&self, side: Primitive<Self::Real>, speed: Self::Real) -> Primitive<Self::Real>;
}

/// Pressure and velocity between the two waves.
#[derive(Debug, Clone, Copy, PartialEq)]
pub struct StarState<R> {
    pub p: R,
    pub u: R,
}

/// Two states and the gas that joins them.
#[derive(Debug, Clone, Copy, PartialEq)]
pub struct RiemannProblem<K: Waves> {
    pub left: Primitive<K::Real>,
    pub right: Primitive<K::Real>,
    pub gas: K,
}

/// `f` is the jump across a side's wave at a star pressure, and its slope.
pub open spec fn is_wave<K: Waves>(
    k: K,
    p: K::Real,
    side: Primitive<K::Real>,
    f: (K::Real, K::Real),
) -> bool {
    ||| call_ensures(K::is_shock, (&k, p, side), true) && call_ensures(K::shock, (&k, p, side), f)
    ||| call_ensures(K::is_shock, (&k, p, side), false) && call_ensures(
        K::rarefaction,
        (&k, p, side),
        f,
    )
}

/// `next` follows `p` in the iteration on the star pressure.
pub open spec fn is_newton_step<K: Waves>(
    m: RiemannProblem<K>,
    p: K::Real,
    next: K::Real,
) -> bool {
    exists|fl: (K::Real, K::Real), fr: (K::Real, K::Real)|
        {
            &&& #[trigger] is_wave(m.gas, p, m.left, fl)
            &&& #[trigger] is_wave(m.gas, p, m.right, fr)
            &&& call_ensures(K::newton, (&m.gas, p, fl, fr, m.left, m.right), next)
        }
}

pub open spec fn is_newton_at<K: Waves>(m: RiemannProblem<K>, trace: Seq<K::Real>, i: int) -> bool {
    is_newton_step(m, trace[i], trace[i + 1])
}

/// Whether step `i` was found to have converged.
pub open spec fn is_converged_at<K: Waves>(
    m: RiemannProblem<K>,
    trace: Seq<K::Real>,
    i: int,
    converged: bool,
) -> bool {
    call_ensures(K::is_converged, (&m.gas, trace[i + 1], trace[i]), converged)
}

/// The star pressures of an iteration, none converged before the last step.
pub open spec fn is_iteration<K: Waves>(m: RiemannProblem<K>, trace: Seq<K::Real>) -> bool {
    let steps = trace.len() - 1;
    &&& 0 <= steps <= MAX_NEWTON
    &&& forall|i: int| 0 <= i < steps ==> #[trigger] is_newton_at(m, trace, i)
    &&& forall|i: int| 0 <= i < steps - 1 ==> #[trigger] is_converged_at(m, trace, i, false)
}

/// Whether two sides are refused, and the guess that they are joined from.
pub open spec fn is_joined<K: Waves>(
    m: RiemannProblem<K>,
    vacuum: bool,
    guess: K::Real,
) -> bool {
    exists|cl: K::Real, cr: K::Real|
        {
            &&& #[trigger] call_ensures(K::sound_speed, (&m.gas, m.left), cl)
            &&& #[trigger] call_ensures(K::sound_speed, (&m.gas, m.right), cr)
            &&& call_ensures(K::generates_vacuum, (&m.gas, m.left, m.right, cl, cr), vacuum)
            &&& !vacuum ==> call_ensures(K::first_guess, (&m.gas, m.left, m.right, cl, cr), guess)
        }
}

/// `u` is the velocity between the waves at a star pressure.
pub open spec fn is_star_velocity<K: Waves>(m: RiemannProblem<K>, p: K::Real, u: K::Real) -> bool {
    exists|fl: (K::Real, K::Real), fr: (K::Real, K::Real)|
        {
            &&& #[trigger] is_wave(m.gas, p, m.left, fl)
            &&& #[trigger] is_wave(m.gas, p, m.right, fr)
            &&& call_ensures(K::star_velocity, (&m.gas, m.left, m.right, fl.0, fr.0), u)
        }
}

/// What [`RiemannProblem::star_state`] may return.
pub open spec fn is_star<K: Waves>(
    m: RiemannProblem<K>,
    r: Result<StarState<K::Real>, RiemannError>,
) -> bool {
    match r {
        Err(RiemannError::Vacuum) => exists|guess: K::Real| #[trigger] is_joined(m, true, guess),
        Err(RiemannError::NotConverged) => exists|trace: Seq<K::Real>| #[trigger]
            is_iteration(m, trace) && is_joined(m, false, trace[0]) && trace.len() == MAX_NEWTON + 1
                && is_converged_at(m, trace, MAX_NEWTON - 1, false),
        Ok(star) => exists|trace: Seq<K::Real>| #[trigger]
            is_iteration(m, trace) && is_joined(m, false, trace[0]) && trace.len() > 1
                && is_converged_at(m, trace, trace.len() - 2, true) && star.p == trace.last()
                && is_star_velocity(m, star.p, star.u),
    }
}

/// `w` is the state along a ray on the left of the contact.
pub open spec fn is_side_sample<K: Waves>(
    k: K,
    side: Primitive<K::Real>,
    star: StarState<K::Real>,
    s: K::Real,
    w: Primitive<K::Real>,
) -> bool {
    exists|c: K::Real|
        {
            &&& #[trigger] call_ensures(K::compression, (&k, star.p, side), c)
            &&& {
                ||| call_ensures(K::is_compressive, (&k, c), true) && is_shock_sample(
                    k,
                    side,
                    star,
                    c,
                    s,
                    w,
                )
                ||| call_ensures(K::is_compressive, (&k, c), false) && is_fan_sample(
                    k,
                    side,
                    star,
                    c,
                    s,
                    w,
                )
            }
        }
}

/// A shock: the side's own state ahead of it, the shocked state behind.
pub open spec fn is_shock_sample<K: Waves>(
    k: K,
    side: Primitive<K::Real>,
    star: StarState<K::Real>,
    c: K::Real,
    s: K::Real,
    w: Primitive<K::Real>,
) -> bool {
    exists|speed: K::Real|
        {
            &&& #[trigger] call_ensures(K::shock_speed, (&k, side, c), speed)
            &&& {
                ||| call_ensures(K::is_at_most, (&k, s, speed), true) && w == side
                ||| call_ensures(K::is_at_most, (&k, s, speed), false) && call_ensures(
                    K::shocked_density,
                    (&k, side, c),
                    w.rho,
                ) && w.u == star.u && w.p == star.p
            }
        }
}

/// A rarefaction: the side's own state ahead of the head, the expanded state
/// behind the tail, the fan in between.
pub open spec fn is_fan_sample<K: Waves>(
    k: K,
    side: Primitive<K::Real>,
    star: StarState<K::Real>,
    c: K::Real,
    s: K::Real,
    w: Primitive<K::Real>,
) -> bool {
    exists|head: K::Real, tail: K::Real|
        {
            &&& #[trigger] call_ensures(K::head_speed, (&k, side), head)
            &&& #[trigger] call_ensures(K::tail_speed, (&k, side, star.u, c), tail)
            &&& {
                ||| call_ensures(K::is_at_most, (&k, s, head), true) && w == side
                ||| call_ensures(K::is_at_most, (&k, s, head), false) && call_ensures(
                    K::is_at_most,
                    (&k, tail, s),
                    true,
                ) && call_ensures(K::expanded_density, (&k, side, c), w.rho) && w.u == star.u
                    && w.p == star.p
                ||| call_ensures(K::is_at_most, (&k, s, head), false) && call_ensures(
                    K::is_at_most,
                    (&k, tail, s),
                    false,
                ) && call_ensures(K::fan, (&k, side, s), w)
            }
        }
}

/// `v` is `w` seen in a mirror: its velocity is negated.
pub open spec fn is_image<K: Waves>(k: K, w: Primitive<K::Real>, v: Primitive<K::Real>) -> bool {
    &&& v.rho == w.rho
    &&& v.p == w.p
    &&& call_ensures(K::negate, (&k, w.u), v.u)
}

/// The mirror image of a star state and a ray.
pub open spec fn are_mirrored<K: Waves>(
    k: K,
    star: StarState<K::Real>,
    speed: K::Real,
    image: StarState<K::Real>,
    s: K::Real,
) -> bool {
    &&& image.p == star.p
    &&& call_ensures(K::negate, (&k, star.u), image.u)
    &&& call_ensures(K::negate, (&k, speed), s)
}

/// `w` is the state along a ray on the right of the contact: the mirror image of
/// what the mirrored right side holds along the mirrored ray.
pub open spec fn is_right_sample<K: Waves>(
    m: RiemannProblem<K>,
    star: StarState<K::Real>,
    speed: K::Real,
    w: Primitive<K::Real>,
) -> bool {
    exists|side: Primitive<K::Real>, image: StarState<K::Real>, s: K::Real, v: Primitive<K::Real>|
        {
            &&& is_image(m.gas, m.right, side)
            &&& are_mirrored(m.gas, star, speed, image, s)
            &&& #[trigger] is_side_sample(m.gas, side, image, s, v)
            &&& is_image(m.gas, v, w)
        }
}

/// What [`RiemannProblem::sample`] may return.
pub open spec fn is_sample<K: Waves>(
    m: RiemannProblem<K>,
    star: StarState<K::Real>,
    speed: K::Real,
    w: Primitive<K::Real>,
) -> bool {
    ||| call_ensures(K::is_at_most, (&m.gas, speed, star.u), true) && is_side_sample(
        m.gas,
        m.left,
        star,
        speed,
        w,
    )
    ||| call_ensures(K::is_at_most, (&m.gas, speed, star.u), false) && is_right_sample(
        m,
        star,
        speed,
        w,
    )
}

impl<K: Waves> RiemannProblem<K> {
    /// Jump across one wave, and its slope.
    fn wave(&self, p: K::Real, side: Primitive<K::Real>) -> (f: (K::Real, K::Real))
        ensures
            is_wave(self.gas, p, side, f),
    {
        if self.gas.is_shock(p, side) {
            self.gas.shock(p, side)
        } else {
            self.gas.rarefaction(p, side)
        }
    }

    /// Pressure and velocity between the waves, by Newton iteration.
    pub fn star_state(&self) -> (r: Result<StarState<K::Real>, RiemannError>)
        ensures
            is_star(*self, r),
    {
        let k: &K = &self.gas;
        let cl: K::Real = k.sound_speed(self.left);
        let cr: K::Real = k.sound_speed(self.right);
        if k.generates_vacuum(self.left, self.right, cl, cr) {
            proof {
                assert(is_joined(*self, true, cl));
            }
            return Err(RiemannError::Vacuum);
        }
        let mut p: K::Real = k.first_guess(self.left, self.right, cl, cr);
        proof {
            assert(is_joined(*self, false, p));
        }
        let ghost mut trace: Seq<K::Real> = seq![p];
        let mut step: usize = 0;
        while step < MAX_NEWTON
            invariant
                *k == self.gas,
                step <= MAX_NEWTON,
                trace.len() == step + 1,
                trace.last() == p,
                is_joined(*self, false, trace[0]),
                is_iteration(*self, trace),
                step > 0 ==> is_converged_at(*self, trace, step - 1, false),
            decreases MAX_NEWTON - step,
        {
            let fl: (K::Real, K::Real) = self.wave(p, self.left);
            let fr: (K::Real, K::Real) = self.wave(p, self.right);
            let next: K::Real = k.newton(p, fl, fr, self.left, self.right);
            let converged: bool = k.is_converged(next, p);
            proof {
                assert(is_wave(self.gas, p, self.left, fl));
                assert(is_wave(self.gas, p, self.right, fr));
                assert(is_newton_step(*self, p, next));
                let t2 = trace.push(next);
                assert forall|i: int| 0 <= i < t2.len() - 1 implies #[trigger] is_newton_at(
                    *self,
                    t2,
                    i,
                ) by {
                    if i < trace.len() - 1 {
                        assert(is_newton_at(*self, trace, i));
                    }
                }
                assert forall|i: int| 0 <= i < t2.len() - 2 implies #[trigger] is_converged_at(
                    *self,
                    t2,
                    i,
                    false,
                ) by {
                    assert(is_converged_at(*self, trace, i, false));
                }
                trace = t2;
                assert(is_iteration(*self, trace));
            }
            p = next;
            step = step + 1;
            if converged {
                let gl: (K::Real, K::Real) = self.wave(p, self.left);
                let gr: (K::Real, K::Real) = self.wave(p, self.right);
                let u: K::Real = k.star_velocity(self.left, self.right, gl.0, gr.0);
                proof {
                    assert(is_wave(self.gas, p, self.left, gl));
                    assert(is_wave(self.gas, p, self.right, gr));
                    assert(is_star_velocity(*self, p, u));
                    assert(is_converged_at(*self, trace, trace.len() - 2, true));
                }
                return Ok(StarState { p, u });
            }
        }
        Err(RiemannError::NotConverged)
    }

    /// State along a ray on the left of the contact.
    fn side_sample(
        &self,
        side: Primitive<K::Real>,
        star: StarState<K::Real>,
        s: K::Real,
    ) -> (w: Primitive<K::Real>)
        ensures
            is_side_sample(self.gas, side, star, s, w),
    {
        let k: &K = &self.gas;
        let c: K::Real = k.compression(star.p, side);
        if k.is_compressive(c) {
            let speed: K::Real = k.shock_speed(side, c);
            let w: Primitive<K::Real> = if k.is_at_most(s, speed) {
                side
            } else {
                Primitive { rho: k.shocked_density(side, c), u: star.u, p: star.p }
            };
            proof {
                assert(is_shock_sample(self.gas, side, star, c, s, w));
            }
            w
        } else {
            let head: K::Real = k.head_speed(side);
            let tail: K::Real = k.tail_speed(side, star.u, c);
            let w: Primitive<K::Real> = if k.is_at_most(s, head) {
                side
            } else if k.is_at_most(tail, s) {
                Primitive { rho: k.expanded_density(side, c), u: star.u, p: star.p }
            } else {
                k.fan(side, s)
            };
            proof {
                assert(is_fan_sample(self.gas, side, star, c, s, w));
            }
            w
        }
    }

    /// The self-similar solution along a ray.
    pub fn sample(&self, star: StarState<K::Real>, speed: K::Real) -> (w: Primitive<K::Real>)
        ensures
            is_sample(*self, star, speed, w),
    {
        let k: &K = &self.gas;
        if k.is_at_most(speed, star.u) {
            return self.side_sample(self.left, star, speed);
        }
        let side: Primitive<K::Real> = Primitive { u: k.negate(self.right.u), ..self.right };
        let image: StarState<K::Real> = StarState { p: star.p, u: k.negate(star.u) };
        let s: K::Real = k.negate(speed);
        let v: Primitive<K::Real> = self.side_sample(side, image, s);
        let w: Primitive<K::Real> = Primitive { u: k.negate(v.u), ..v };
        proof {
            assert(is_side_sample(self.gas, side, image, s, v));
            assert(is_right_sample(*self, star, speed, w));
        }
        w
    }

    /// The state at a position and a time, for a diaphragm at the origin.
    pub fn state_at(&self, x: K::Real, t: K::Real) -> (r: Result<Primitive<K::Real>, RiemannError>)
        ensures
            match r {
                Err(e) => is_star(*self, Err(e)),
                Ok(w) => is_state(*self, x, t, w),
            },
    {
        match self.star_state() {
            Err(e) => Err(e),
            Ok(star) => {
                let speed: K::Real = self.gas.ratio(x, t);
                let w: Primitive<K::Real> = self.sample(star, speed);
                proof {
                    assert(is_star(*self, Ok(star)));
                    assert(is_state(*self, x, t, w));
                }
                Ok(w)
            },
        }
    }
}

/// `w` is the state at a position and a time.
pub open spec fn is_state<K: Waves>(
    m: RiemannProblem<K>,
    x: K::Real,
    t: K::Real,
    w: Primitive<K::Real>,
) -> bool {
    exists|star: StarState<K::Real>, speed: K::Real|
        {
            &&& #[trigger] is_star(m, Ok(star))
            &&& #[trigger] call_ensures(K::ratio, (&m.gas, x, t), speed)
            &&& is_sample(m, star, speed, w)
        }
}

/// The solution is self-similar: it is the same at all positions and times that
/// lie on one ray.
pub proof fn law_solution_is_self_similar<K: Waves>(
    m: RiemannProblem<K>,
    x: K::Real,
    t: K::Real,
    y: K::Real,
    s: K::Real,
    w: Primitive<K::Real>,
)
    requires
        is_state(m, x, t, w),
        forall|ray: K::Real| #[trigger]
            call_ensures(K::ratio, (&m.gas, x, t), ray) ==> call_ensures(
                K::ratio,
                (&m.gas, y, s),
                ray,
            ),
    ensures
        is_state(m, y, s, w),
{
    let (star, speed) = choose|star: StarState<K::Real>, speed: K::Real|
        {
            &&& #[trigger] is_star(m, Ok(star))
            &&& #[trigger] call_ensures(K::ratio, (&m.gas, x, t), speed)
            &&& is_sample(m, star, speed, w)
        };
    assert(call_ensures(K::ratio, (&m.gas, y, s), speed));
}

/// Seeing a number in the mirror twice gives it back, a number has one image, and
/// the order of two different numbers is reversed.
pub open spec fn reflects<K: Waves>(k: K) -> bool {
    &&& forall|x: K::Real, y: K::Real| #[trigger]
        call_ensures(K::negate, (&k, x), y) ==> call_ensures(K::negate, (&k, y), x)
    &&& forall|x: K::Real, y: K::Real, z: K::Real| #[trigger]
        call_ensures(K::negate, (&k, x), y) && #[trigger] call_ensures(K::negate, (&k, x), z) ==> y
            == z
    &&& forall|a: K::Real, b: K::Real, x: K::Real, y: K::Real, r: bool|
        #![trigger call_ensures(K::negate, (&k, a), x), call_ensures(K::negate, (&k, b), y), call_ensures(K::is_at_most, (&k, a, b), r)]
        a != b && call_ensures(K::negate, (&k, a), x) && call_ensures(K::negate, (&k, b), y)
            && call_ensures(K::is_at_most, (&k, a, b), r) ==> call_ensures(
            K::is_at_most,
            (&k, x, y),
            !r,
        )
}

/// The mirror image of a problem: the sides change places, and each is seen in the
/// mirror.
pub open spec fn is_mirrored_problem<K: Waves>(
    m: RiemannProblem<K>,
    n: RiemannProblem<K>,
) -> bool {
    &&& n.gas == m.gas
    &&& is_image(m.gas, m.right, n.left)
    &&& is_image(m.gas, m.left, n.right)
}

/// Mirror symmetry of the solution: along the mirrored ray, the mirrored problem
/// has the mirror image of the state. On the contact itself, where the two sides
/// meet, which of them is seen changes with the mirror.
pub proof fn law_solution_is_mirrored<K: Waves>(
    m: RiemannProblem<K>,
    n: RiemannProblem<K>,
    star: StarState<K::Real>,
    image: StarState<K::Real>,
    speed: K::Real,
    s: K::Real,
    w: Primitive<K::Real>,
    v: Primitive<K::Real>,
)
    requires
        is_mirrored_problem(m, n),
        are_mirrored(m.gas, star, speed, image, s),
        is_image(m.gas, w, v),
        is_sample(m, star, speed, w),
        speed != star.u,
        reflects(m.gas),
    ensures
        is_sample(n, image, s, v),
{
    let k = m.gas;
    if call_ensures(K::is_at_most, (&k, speed, star.u), true) && is_side_sample(
        k,
        m.left,
        star,
        speed,
        w,
    ) {
        assert(is_side_sample(n.gas, m.left, star, speed, w));
        assert(is_right_sample(n, image, s, v));
    } else {
        let (side, mirrored, ray, held) = choose|
            side: Primitive<K::Real>,
            mirrored: StarState<K::Real>,
            ray: K::Real,
            held: Primitive<K::Real>,
        |
            {
                &&& is_image(m.gas, m.right, side)
                &&& are_mirrored(m.gas, star, speed, mirrored, ray)
                &&& #[trigger] is_side_sample(m.gas, side, mirrored, ray, held)
                &&& is_image(m.gas, held, w)
            };
        assert(side == n.left);
        assert(mirrored == image && ray == s);
        assert(held == v);
    }
}

/// What joins two sides is blind to which of them is on the left: a wave does not
/// see the velocity of its side, and the vacuum, the guess and the iteration are
/// the same with the mirrored sides exchanged, where the velocity between the
/// waves is negated.
pub open spec fn joins_alike<K: Waves>(m: RiemannProblem<K>, n: RiemannProblem<K>) -> bool {
    let k = m.gas;
    &&& forall|p: K::Real, f: (K::Real, K::Real)| #[trigger]
        is_wave(k, p, m.left, f) ==> is_wave(k, p, n.right, f)
    &&& forall|p: K::Real, f: (K::Real, K::Real)| #[trigger]
        is_wave(k, p, m.right, f) ==> is_wave(k, p, n.left, f)
    &&& forall|c: K::Real| #[trigger]
        call_ensures(K::sound_speed, (&k, m.left), c) ==> call_ensures(
            K::sound_speed,
            (&k, n.right),
            c,
        )
    &&& forall|c: K::Real| #[trigger]
        call_ensures(K::sound_speed, (&k, m.right), c) ==> call_ensures(
            K::sound_speed,
            (&k, n.left),
            c,
        )
    &&& forall|cl: K::Real, cr: K::Real, vacuum: bool| #[trigger]
        call_ensures(K::generates_vacuum, (&k, m.left, m.right, cl, cr), vacuum) ==> call_ensures(
            K::generates_vacuum,
            (&k, n.left, n.right, cr, cl),
            vacuum,
        )
    &&& forall|cl: K::Real, cr: K::Real, guess: K::Real| #[trigger]
        call_ensures(K::first_guess, (&k, m.left, m.right, cl, cr), guess) ==> call_ensures(
            K::first_guess,
            (&k, n.left, n.right, cr, cl),
            guess,
        )
    &&& forall|p: K::Real, fl: (K::Real, K::Real), fr: (K::Real, K::Real), next: K::Real|
        #[trigger]
        call_ensures(K::newton, (&k, p, fl, fr, m.left, m.right), next) ==> call_ensures(
            K::newton,
            (&k, p, fr, fl, n.left, n.right),
            next,
        )
    &&& forall|fl: K::Real, fr: K::Real, u: K::Real, v: K::Real|
        #![trigger call_ensures(K::star_velocity, (&k, m.left, m.right, fl, fr), u), call_ensures(K::negate, (&k, u), v)]
        call_ensures(K::star_velocity, (&k, m.left, m.right, fl, fr), u) && call_ensures(
            K::negate,
            (&k, u),
            v,
        ) ==> call_ensures(K::star_velocity, (&k, n.left, n.right, fr, fl), v)
}

/// The mirrored problem has the star state's mirror image: the pressure is the
/// same, and the velocity is negated.
pub proof fn law_star_is_mirrored<K: Waves>(
    m: RiemannProblem<K>,
    n: RiemannProblem<K>,
    star: StarState<K::Real>,
    image: StarState<K::Real>,
)
    requires
        is_mirrored_problem(m, n),
        joins_alike(m, n),
        is_star(m, Ok(star)),
        image.p == star.p,
        call_ensures(K::negate, (&m.gas, star.u), image.u),
    ensures
        is_star(n, Ok(image)),
{
    let k = m.gas;
    let trace = choose|trace: Seq<K::Real>| #[trigger]
        is_iteration(m, trace) && is_joined(m, false, trace[0]) && trace.len() > 1
            && is_converged_at(m, trace, trace.len() - 2, true) && star.p == trace.last()
            && is_star_velocity(m, star.p, star.u);
    let steps = trace.len() - 1;
    assert forall|i: int| 0 <= i < steps implies #[trigger] is_newton_at(n, trace, i) by {
        assert(is_newton_at(m, trace, i));
        let (p, next) = (trace[i], trace[i + 1]);
        let (fl, fr) = choose|fl: (K::Real, K::Real), fr: (K::Real, K::Real)|
            {
                &&& #[trigger] is_wave(k, p, m.left, fl)
                &&& #[trigger] is_wave(k, p, m.right, fr)
                &&& call_ensures(K::newton, (&k, p, fl, fr, m.left, m.right), next)
            };
        assert(is_wave(k, p, n.left, fr));
        assert(is_wave(k, p, n.right, fl));
        assert(is_newton_step(n, p, next));
    }
    assert forall|i: int| 0 <= i < steps - 1 implies #[trigger] is_converged_at(
        n,
        trace,
        i,
        false,
    ) by {
        assert(is_converged_at(m, trace, i, false));
    }
    assert(is_iteration(n, trace));
    let (cl, cr) = choose|cl: K::Real, cr: K::Real|
        {
            &&& #[trigger] call_ensures(K::sound_speed, (&k, m.left), cl)
            &&& #[trigger] call_ensures(K::sound_speed, (&k, m.right), cr)
            &&& call_ensures(K::generates_vacuum, (&k, m.left, m.right, cl, cr), false)
            &&& call_ensures(K::first_guess, (&k, m.left, m.right, cl, cr), trace[0])
        };
    assert(call_ensures(K::sound_speed, (&n.gas, n.left), cr));
    assert(call_ensures(K::sound_speed, (&n.gas, n.right), cl));
    assert(is_joined(n, false, trace[0]));
    let (fl, fr) = choose|fl: (K::Real, K::Real), fr: (K::Real, K::Real)|
        {
            &&& #[trigger] is_wave(k, star.p, m.left, fl)
            &&& #[trigger] is_wave(k, star.p, m.right, fr)
            &&& call_ensures(K::star_velocity, (&k, m.left, m.right, fl.0, fr.0), star.u)
        };
    assert(is_wave(k, star.p, n.left, fr));
    assert(is_wave(k, star.p, n.right, fl));
    assert(is_star_velocity(n, image.p, image.u));
    assert(is_converged_at(n, trace, trace.len() - 2, true));
}

/// A comparison has one outcome.
pub open spec fn decides<K: Waves>(k: K) -> bool {
    forall|a: K::Real, b: K::Real| #[trigger]
        call_ensures(K::is_at_most, (&k, a, b), true) ==> !call_ensures(
            K::is_at_most,
            (&k, a, b),
            false,
        )
}

/// The ray is ahead of the wave that a side sends out: of its shock where the star
/// pressure compresses the side, of the head of its fan otherwise.
pub open spec fn is_ahead_of_waves<K: Waves>(
    k: K,
    side: Primitive<K::Real>,
    star: StarState<K::Real>,
    s: K::Real,
) -> bool {
    &&& forall|c: K::Real, speed: K::Real|
        #![trigger call_ensures(K::compression, (&k, star.p, side), c), call_ensures(K::shock_speed, (&k, side, c), speed)]
        {
            &&& call_ensures(K::compression, (&k, star.p, side), c)
            &&& call_ensures(K::is_compressive, (&k, c), true)
            &&& call_ensures(K::shock_speed, (&k, side, c), speed)
        } ==> call_ensures(K::is_at_most, (&k, s, speed), true)
    &&& forall|c: K::Real, head: K::Real|
        #![trigger call_ensures(K::compression, (&k, star.p, side), c), call_ensures(K::head_speed, (&k, side), head)]
        {
            &&& call_ensures(K::compression, (&k, star.p, side), c)
            &&& call_ensures(K::is_compressive, (&k, c), false)
            &&& call_ensures(K::head_speed, (&k, side), head)
        } ==> call_ensures(K::is_at_most, (&k, s, head), true)
}

/// The far field on the left is the left side: ahead of its wave the solution is
/// the undisturbed state.
pub proof fn law_left_far_field_is_undisturbed<K: Waves>(
    m: RiemannProblem<K>,
    star: StarState<K::Real>,
    speed: K::Real,
    w: Primitive<K::Real>,
)
    requires
        is_sample(m, star, speed, w),
        decides(m.gas),
        call_ensures(K::is_at_most, (&m.gas, speed, star.u), true),
        is_ahead_of_waves(m.gas, m.left, star, speed),
    ensures
        w == m.left,
{
}

/// The far field on the right is the right side.
pub proof fn law_right_far_field_is_undisturbed<K: Waves>(
    m: RiemannProblem<K>,
    star: StarState<K::Real>,
    speed: K::Real,
    w: Primitive<K::Real>,
)
    requires
        is_sample(m, star, speed, w),
        decides(m.gas),
        call_ensures(K::is_at_most, (&m.gas, speed, star.u), false),
        reflects(m.gas),
        forall|side: Primitive<K::Real>, image: StarState<K::Real>, s: K::Real|
            #![trigger is_image(m.gas, m.right, side), are_mirrored(m.gas, star, speed, image, s)]
            is_image(m.gas, m.right, side) && are_mirrored(m.gas, star, speed, image, s)
                ==> is_ahead_of_waves(m.gas, side, image, s),
    ensures
        w == m.right,
{
    let (side, image, s, v) = choose|
        side: Primitive<K::Real>,
        image: StarState<K::Real>,
        s: K::Real,
        v: Primitive<K::Real>,
    |
        {
            &&& is_image(m.gas, m.right, side)
            &&& are_mirrored(m.gas, star, speed, image, s)
            &&& #[trigger] is_side_sample(m.gas, side, image, s, v)
            &&& is_image(m.gas, v, w)
        };
    assert(is_ahead_of_waves(m.gas, side, image, s));
    assert(v == side);
}

/// The ray is behind the wave that a side sends out: behind its shock where the star
/// pressure compresses the side, behind head and tail of its fan otherwise.
pub open spec fn is_behind_waves<K: Waves>(
    k: K,
    side: Primitive<K::Real>,
    star: StarState<K::Real>,
    s: K::Real,
) -> bool {
    &&& forall|c: K::Real, speed: K::Real|
        #![trigger call_ensures(K::compression, (&k, star.p, side), c), call_ensures(K::shock_speed, (&k, side, c), speed)]
        {
            &&& call_ensures(K::compression, (&k, star.p, side), c)
            &&& call_ensures(K::is_compressive, (&k, c), true)
            &&& call_ensures(K::shock_speed, (&k, side, c), speed)
        } ==> call_ensures(K::is_at_most, (&k, s, speed), false)
    &&& forall|c: K::Real, head: K::Real, tail: K::Real|
        #![trigger call_ensures(K::compression, (&k, star.p, side), c), call_ensures(K::head_speed, (&k, side), head), call_ensures(K::tail_speed, (&k, side, star.u, c), tail)]
        {
            &&& call_ensures(K::compression, (&k, star.p, side), c)
            &&& call_ensures(K::is_compressive, (&k, c), false)
            &&& call_ensures(K::head_speed, (&k, side), head)
            &&& call_ensures(K::tail_speed, (&k, side, star.u, c), tail)
        } ==> call_ensures(K::is_at_most, (&k, s, head), false) && call_ensures(
            K::is_at_most,
            (&k, tail, s),
            true,
        )
}

/// Pressure and velocity do not jump at the contact: behind its waves, either side
/// has those of the star state. Only the density may differ there.
pub proof fn law_contact_jumps_in_density_only<K: Waves>(
    m: RiemannProblem<K>,
    star: StarState<K::Real>,
    speed: K::Real,
    w: Primitive<K::Real>,
)
    requires
        is_sample(m, star, speed, w),
        decides(m.gas),
        reflects(m.gas),
        is_behind_waves(m.gas, m.left, star, speed),
        forall|side: Primitive<K::Real>, image: StarState<K::Real>, s: K::Real|
            #![trigger is_image(m.gas, m.right, side), are_mirrored(m.gas, star, speed, image, s)]
            is_image(m.gas, m.right, side) && are_mirrored(m.gas, star, speed, image, s)
                ==> is_behind_waves(m.gas, side, image, s),
    ensures
        w.p == star.p,
        w.u == star.u,
{
    let k = m.gas;
    let left = call_ensures(K::is_at_most, (&k, speed, star.u), true) && is_side_sample(
        k,
        m.left,
        star,
        speed,
        w,
    );
    if !left {
        let (side, image, s, v) = choose|
            side: Primitive<K::Real>,
            image: StarState<K::Real>,
            s: K::Real,
            v: Primitive<K::Real>,
        |
            {
                &&& is_image(m.gas, m.right, side)
                &&& are_mirrored(m.gas, star, speed, image, s)
                &&& #[trigger] is_side_sample(m.gas, side, image, s, v)
                &&& is_image(m.gas, v, w)
            };
        assert(is_behind_waves(m.gas, side, image, s));
        assert(v.u == image.u && v.p == star.p);
    }
}

/// The arithmetic of a fit in logarithms.
pub trait Fitting: Sized {
    type Real: Copy;

    fn zero(&self) -> Self::Real;

    fn plus(&self, a: Self::Real, b: Self::Real) -> Self::Real;

    fn times(&self, a: Self::Real, b: Self::Real) -> Self::Real;

    fn logarithm(&self, x: Self::Real) -> Self::Real;

    /// Denominator of the slope of `n` points.
    fn spread(&self, n: usize, sx: Self::Real, sxx: Self::Real) -> Self::Real;

    /// Whether all abscissas coincide.
    fn is_degenerate(&self, spread: Self::Real) -> bool;

    /// Slope of `n` points.
    fn slope(
        &self,
        n: usize,
        sx: Self::Real,
        sy: Self::Real,
        sxy: Self::Real,
        spread: Self::Real,
    ) -> Self::Real;
}

/// Sums of the logarithms of a curve.
#[derive(Clone, Copy)]
pub struct LogSums<R> {
    pub x: R,
    pub y: R,
    pub xx: R,
    pub xy: R,
}

/// `after` is `before` plus a product.
pub open spec fn is_product_added<K: Fitting>(
    k: K,
    before: K::Real,
    a: K::Real,
    b: K::Real,
    after: K::Real,
) -> bool {
    exists|q: K::Real| #[trigger]
        call_ensures(K::times, (&k, a, b), q) && call_ensures(K::plus, (&k, before, q), after)
}

/// `b` is `a` with a point added.
pub open spec fn is_point_added<K: Fitting>(
    k: K,
    a: LogSums<K::Real>,
    point: (K::Real, K::Real),
    b: LogSums<K::Real>,
) -> bool {
    exists|x: K::Real, y: K::Real|
        {
            &&& #[trigger] call_ensures(K::logarithm, (&k, point.0), x)
            &&& #[trigger] call_ensures(K::logarithm, (&k, point.1), y)
            &&& call_ensures(K::plus, (&k, a.x, x), b.x)
            &&& call_ensures(K::plus, (&k, a.y, y), b.y)
            &&& is_product_added(k, a.xx, x, x, b.xx)
            &&& is_product_added(k, a.xy, x, y, b.xy)
        }
}

pub open spec fn is_sum_leg<K: Fitting>(
    k: K,
    curve: Seq<(K::Real, K::Real)>,
    run: Seq<LogSums<K::Real>>,
    i: int,
) -> bool {
    is_point_added(k, run[i], curve[i], run[i + 1])
}

/// `run[i]` are the sums over the first `i` points.
pub open spec fn is_sum_run<K: Fitting>(
    k: K,
    curve: Seq<(K::Real, K::Real)>,
    run: Seq<LogSums<K::Real>>,
) -> bool {
    &&& 0 < run.len() <= curve.len() + 1
    &&& call_ensures(K::zero, (&k,), run[0].x)
    &&& call_ensures(K::zero, (&k,), run[0].y)
    &&& call_ensures(K::zero, (&k,), run[0].xx)
    &&& call_ensures(K::zero, (&k,), run[0].xy)
    &&& forall|i: int| 0 <= i < run.len() - 1 ==> #[trigger] is_sum_leg(k, curve, run, i)
}

/// What [`loglog_slope`] may return.
pub open spec fn is_loglog_slope<K: Fitting>(
    k: K,
    curve: Seq<(K::Real, K::Real)>,
    r: Option<K::Real>,
) -> bool {
    if curve.len() < 2 {
        r is None
    } else {
        exists|run: Seq<LogSums<K::Real>>| #[trigger]
            is_sum_run(k, curve, run) && run.len() == curve.len() + 1 && is_slope_of(
                k,
                curve.len() as usize,
                run.last(),
                r,
            )
    }
}

/// The slope of `n` points from their sums.
pub open spec fn is_slope_of<K: Fitting>(
    k: K,
    n: usize,
    s: LogSums<K::Real>,
    r: Option<K::Real>,
) -> bool {
    exists|spread: K::Real|
        {
            &&& #[trigger] call_ensures(K::spread, (&k, n, s.x, s.xx), spread)
            &&& match r {
                None => call_ensures(K::is_degenerate, (&k, spread), true),
                Some(slope) => {
                    &&& call_ensures(K::is_degenerate, (&k, spread), false)
                    &&& call_ensures(K::slope, (&k, n, s.x, s.y, s.xy, spread), slope)
                },
            }
        }
}

fn add_product<K: Fitting>(k: &K, before: K::Real, a: K::Real, b: K::Real) -> (after: K::Real)
    ensures
        is_product_added(*k, before, a, b, after),
{
    let q: K::Real = k.times(a, b);
    k.plus(before, q)
}

/// Exponent of a power law through a curve, fitted in logarithms. `None` for
/// fewer than two points, or if all abscissas coincide.
pub fn loglog_slope<K: Fitting>(k: &K, curve: &[(K::Real, K::Real)]) -> (r: Option<K::Real>)
    ensures
        is_loglog_slope(*k, curve@, r),
{
    if curve.len() < 2 {
        return None;
    }
    let mut s: LogSums<K::Real> = LogSums {
        x: k.zero(),
        y: k.zero(),
        xx: k.zero(),
        xy: k.zero(),
    };
    let ghost mut run: Seq<LogSums<K::Real>> = seq![s];
    for i in 0..curve.len()
        invariant
            run.len() == i + 1,
            run.last() == s,
            is_sum_run(*k, curve@, run),
    {
        let (px, py): (K::Real, K::Real) = curve[i];
        let x: K::Real = k.logarithm(px);
        let y: K::Real = k.logarithm(py);
        let next: LogSums<K::Real> = LogSums {
            x: k.plus(s.x, x),
            y: k.plus(s.y, y),
            xx: add_product(k, s.xx, x, x),
            xy: add_product(k, s.xy, x, y),
        };
        proof {
            assert(is_point_added(*k, s, curve@[i as int], next));
            let run2 = run.push(next);
            assert forall|j: int| 0 <= j < run2.len() - 1 implies #[trigger] is_sum_leg(
                *k,
                curve@,
                run2,
                j,
            ) by {
                if j < run.len() - 1 {
                    assert(is_sum_leg(*k, curve@, run, j));
                }
            }
            run = run2;
        }
        s = next;
    }
    let spread: K::Real = k.spread(curve.len(), s.x, s.xx);
    if k.is_degenerate(spread) {
        proof {
            assert(is_slope_of(*k, curve@.len() as usize, run.last(), None));
        }
        return None;
    }
    let slope: K::Real = k.slope(curve.len(), s.x, s.y, s.xy, spread);
    proof {
        assert(is_slope_of(*k, curve@.len() as usize, run.last(), Some(slope)));
    }
    Some(slope)
}

} // verus!

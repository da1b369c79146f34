//! The ignition ensemble over a range of turbulence strengths, and how wide the
//! transition from lit to unlit is.
use crate::cases::{is_mean, is_run_size, mean_of};
use crate::ignition_case::{
    is_ignition_run, run_ignition, IgnitionCase, IgnitionError, IgnitionParams, IgnitionRun, Shot,
};
use crate::medium::Medium;
use crate::optics::{is_launchable, Optics};
use vstd::prelude::*;

verus! {

/// A range of turbulence strengths.
#[derive(Debug, Clone, Copy)]
pub struct IgnitionSweepParams<R> {
    /// Everything but the strength, which the sweep sets.
    pub base: IgnitionParams<R>,
    pub cn2_min: R,
    pub cn2_max: R,
    pub points: usize,
}

/// The ensemble at one strength.
#[derive(Debug)]
pub struct SweepPoint<R> {
    pub cn2: R,
    /// Fried parameter.
    pub r0: R,
    /// Pupil diameter over the Fried parameter.
    pub d_over_r0: R,
    pub p_ignite: R,
    /// Binomial standard error of `p_ignite`.
    pub p_ignite_se: R,
    pub mean_ratio: R,
    pub median_ratio: R,
    pub wander_rms: R,
    /// Focal intensity over that of vacuum, one for each member.
    pub focal_ratio: Vec<R>,
    /// Strehl ratio, one for each member.
    pub strehl: Vec<R>,
    pub i_focus_vacuum: R,
    pub i_threshold: R,
}

/// The result of a sweep.
#[derive(Debug)]
pub struct IgnitionSweepRun<R> {
    pub points: Vec<SweepPoint<R>>,
    /// Decades of strength between the high and the low level of `p_ignite`;
    /// nothing if the sweep does not pass both.
    pub transition_decades: Option<R>,
}

/// Why a sweep has no result.
#[derive(Debug, PartialEq)]
pub enum SweepError<R, E> {
    TooFewPoints,
    /// The strengths are not positive and increasing.
    BadRange,
    Ignition(IgnitionError<R, E>),
}

/// The formulas of a sweep.
pub trait IgnitionSweepCase: IgnitionCase {
    /// Strength `i` of `points`, from the lowest to the highest.
    fn sweep_strength(&self, lo: Self::Real, hi: Self::Real, i: usize, points: usize) -> Self::Real;

    /// Whether `x > 0`.
    fn is_above_zero(&self, x: Self::Real) -> bool;

    /// Fried parameter of a path.
    fn fried_r0(&self, cn2: Self::Real, wavelength: Self::Real, z: Self::Real) -> Self::Real;

    /// Binomial standard error of a fraction of `n`.
    fn standard_error(&self, fraction: Self::Real, n: usize) -> Self::Real;

    /// Whether `a >= b`.
    fn reaches(&self, a: Self::Real, b: Self::Real) -> bool;

    /// The fraction at which the transition starts.
    fn high_level(&self) -> Self::Real;

    /// The fraction at which it ends.
    fn low_level(&self) -> Self::Real;

    /// Decimal logarithm of the strength at which the fraction passes a level
    /// between two points.
    fn crossing(
        &self,
        before: (Self::Real, Self::Real),
        after: (Self::Real, Self::Real),
        level: Self::Real,
    ) -> Self::Real;
}

/// Two values are in order: the first was not found larger, or the second was.
pub open spec fn is_in_order<K: Optics>(k: K, a: K::Real, b: K::Real) -> bool {
    ||| call_ensures(K::exceeds, (&k, a, b), false)
    ||| call_ensures(K::exceeds, (&k, b, a), true)
}

/// Every two neighbours are in order.
pub open spec fn is_ascending<K: Optics>(k: K, s: Seq<K::Real>) -> bool {
    forall|i: int| 0 <= i < s.len() - 1 ==> #[trigger] is_in_order_at(k, s, i)
}

pub open spec fn is_in_order_at<K: Optics>(k: K, s: Seq<K::Real>, i: int) -> bool {
    is_in_order(k, s[i], s[i + 1])
}

/// `sorted` holds the same values in ascending order.
pub open spec fn is_sorting<K: Optics>(k: K, values: Seq<K::Real>, sorted: Seq<K::Real>) -> bool {
    &&& sorted.to_multiset() == values.to_multiset()
    &&& is_ascending(k, sorted)
}

/// Put a value in its place among ascending ones.
fn insert_sorted<K: Optics>(k: &K, sorted: &mut Vec<K::Real>, x: K::Real)
    requires
        is_ascending(*k, old(sorted)@),
    ensures
        is_ascending(*k, final(sorted)@),
        final(sorted)@.len() == old(sorted)@.len() + 1,
        final(sorted)@.to_multiset() == old(sorted)@.to_multiset().insert(x),
{
    let ghost before = sorted@;
    let n: usize = sorted.len();
    let mut at: usize = n;
    while at > 0
        invariant_except_break
            at <= n,
        invariant
            sorted@ == before,
            n == before.len(),
            at <= n,
            at < n ==> call_ensures(K::exceeds, (k, before[at as int], x), true),
        ensures
            at > 0 ==> call_ensures(K::exceeds, (k, before[at - 1], x), false),
        decreases at,
    {
        if !k.exceeds(sorted[at - 1], x) {
            break;
        }
        at = at - 1;
    }
    sorted.insert(at, x);
    proof {
        let after = sorted@;
        assert(after == before.insert(at as int, x));
        assert forall|i: int| 0 <= i < after.len() - 1 implies #[trigger] is_in_order_at(
            *k,
            after,
            i,
        ) by {
            if i + 1 < at {
                assert(is_in_order_at(*k, before, i));
            } else if i > at {
                assert(is_in_order_at(*k, before, i - 1));
            }
        }
        before.to_multiset_ensures();
        vstd::seq_lib::to_multiset_insert(before, at as int, x);
    }
}

/// Some values in ascending order.
pub fn sorted_of<K: Optics>(k: &K, values: &[K::Real]) -> (sorted: Vec<K::Real>)
    ensures
        is_sorting(*k, values@, sorted@),
        sorted@.len() == values@.len(),
{
    let mut sorted: Vec<K::Real> = Vec::with_capacity(values.len());
    proof {
        assert(values@.subrange(0, 0) =~= Seq::empty());
        assert(sorted@ =~= values@.subrange(0, 0));
    }
    for i in 0..values.len()
        invariant
            is_ascending(*k, sorted@),
            sorted@.len() == i,
            sorted@.to_multiset() == values@.subrange(0, i as int).to_multiset(),
    {
        insert_sorted(k, &mut sorted, values[i]);
        proof {
            let shorter = values@.subrange(0, i as int);
            assert(values@.subrange(0, i + 1) =~= shorter.push(values@[i as int]));
            shorter.to_multiset_ensures();
        }
    }
    proof {
        assert(values@.subrange(0, values@.len() as int) =~= values@);
    }
    sorted
}

/// `m` is the upper median of some values.
pub open spec fn is_median<K: Optics>(k: K, values: Seq<K::Real>, m: K::Real) -> bool {
    exists|sorted: Seq<K::Real>| #[trigger]
        is_sorting(k, values, sorted) && m == sorted[sorted.len() as int / 2]
}

/// The fraction falls through a level between points `i` and `i + 1`.
pub open spec fn is_fall_at<K: IgnitionSweepCase>(
    k: K,
    curve: Seq<(K::Real, K::Real)>,
    level: K::Real,
    i: int,
) -> bool {
    &&& call_ensures(K::reaches, (&k, curve[i].1, level), true)
    &&& call_ensures(K::exceeds, (&k, level, curve[i + 1].1), true)
}

/// The fraction does not fall through a level between points `i` and `i + 1`.
pub open spec fn is_no_fall_at<K: IgnitionSweepCase>(
    k: K,
    curve: Seq<(K::Real, K::Real)>,
    level: K::Real,
    i: int,
) -> bool {
    ||| call_ensures(K::reaches, (&k, curve[i].1, level), false)
    ||| call_ensures(K::exceeds, (&k, level, curve[i + 1].1), false)
}

/// The first fall through a level is between points `i` and `i + 1`.
pub open spec fn is_first_fall<K: IgnitionSweepCase>(
    k: K,
    curve: Seq<(K::Real, K::Real)>,
    level: K::Real,
    i: int,
) -> bool {
    &&& 0 <= i < curve.len() - 1
    &&& is_fall_at(k, curve, level, i)
    &&& forall|l: int| 0 <= l < i ==> #[trigger] is_no_fall_at(k, curve, level, l)
}

/// Where the fraction first falls through a level, if it does.
pub open spec fn is_level_passed<K: IgnitionSweepCase>(
    k: K,
    curve: Seq<(K::Real, K::Real)>,
    level: K::Real,
    r: Option<K::Real>,
) -> bool {
    match r {
        None => forall|l: int|
            0 <= l < curve.len() - 1 ==> #[trigger] is_no_fall_at(k, curve, level, l),
        Some(x) => exists|i: int| #[trigger]
            is_first_fall(k, curve, level, i) && call_ensures(
                K::crossing,
                (&k, curve[i], curve[i + 1], level),
                x,
            ),
    }
}

fn level_passed<K: IgnitionSweepCase>(k: &K, curve: &[(K::Real, K::Real)], level: K::Real) -> (r:
    Option<K::Real>)
    ensures
        is_level_passed(*k, curve@, level, r),
{
    if curve.len() < 2 {
        return None;
    }
    let last: usize = curve.len() - 1;
    for i in 0..last
        invariant
            last == curve@.len() - 1,
            forall|l: int| 0 <= l < i ==> #[trigger] is_no_fall_at(*k, curve@, level, l),
    {
        if k.reaches(curve[i].1, level) && k.exceeds(level, curve[i + 1].1) {
            let x: K::Real = k.crossing(curve[i], curve[i + 1], level);
            proof {
                assert(is_fall_at(*k, curve@, level, i as int));
                assert(is_first_fall(*k, curve@, level, i as int));
            }
            return Some(x);
        }
        proof {
            assert(is_no_fall_at(*k, curve@, level, i as int));
        }
    }
    None
}

/// What [`transition_width_decades`] may return.
pub open spec fn is_transition<K: IgnitionSweepCase>(
    k: K,
    curve: Seq<(K::Real, K::Real)>,
    r: Option<K::Real>,
) -> bool {
    exists|high: K::Real, low: K::Real, start: Option<K::Real>, end: Option<K::Real>|
        {
            &&& #[trigger] call_ensures(K::high_level, (&k,), high)
            &&& #[trigger] call_ensures(K::low_level, (&k,), low)
            &&& #[trigger] is_level_passed(k, curve, high, start)
            &&& #[trigger] is_level_passed(k, curve, low, end)
            &&& match (start, end) {
                (Some(a), Some(b)) => r matches Some(d) && call_ensures(K::minus, (&k, b, a), d),
                _ => r is None,
            }
        }
}

/// Decades of strength between the high and the low level of the fraction lit,
/// each taken where the fraction first falls through it. Nothing if it does not
/// fall through both.
pub fn transition_width_decades<K: IgnitionSweepCase>(k: &K, curve: &[(K::Real, K::Real)]) -> (r:
    Option<K::Real>)
    ensures
        is_transition(*k, curve@, r),
{
    let high: K::Real = k.high_level();
    let low: K::Real = k.low_level();
    let start: Option<K::Real> = level_passed(k, curve, high);
    let end: Option<K::Real> = level_passed(k, curve, low);
    proof {
        assert(is_level_passed(*k, curve@, high, start));
        assert(is_level_passed(*k, curve@, low, end));
    }
    match (start, end) {
        (Some(a), Some(b)) => Some(k.minus(b, a)),
        _ => None,
    }
}

/// The parameters at a strength.
pub open spec fn at_strength<R>(p: IgnitionSweepParams<R>, cn2: R) -> IgnitionParams<R> {
    IgnitionParams { cn2, ..p.base }
}

/// The focal intensities of some members over that of vacuum.
pub open spec fn ratios_of<R>(shots: Seq<Shot<R>>) -> Seq<R> {
    Seq::new(shots.len(), |i: int| shots[i].focal_ratio)
}

/// The Strehl ratios of some members.
pub open spec fn strehls_of<R>(shots: Seq<Shot<R>>) -> Seq<R> {
    Seq::new(shots.len(), |i: int| shots[i].strehl)
}

/// What a sweep reports of an ensemble.
pub open spec fn is_point_of<K: IgnitionSweepCase>(
    k: K,
    p: IgnitionSweepParams<K::Real>,
    run: IgnitionRun<K::Real>,
    q: SweepPoint<K::Real>,
) -> bool {
    &&& call_ensures(K::fried_r0, (&k, q.cn2, p.base.wavelength, p.base.z), q.r0)
    &&& call_ensures(K::ratio, (&k, p.base.aperture, q.r0), q.d_over_r0)
    &&& q.p_ignite == run.p_ignite
    &&& call_ensures(
        K::standard_error,
        (&k, run.p_ignite, p.base.realizations),
        q.p_ignite_se,
    )
    &&& is_mean(k, ratios_of(run.shots@), q.mean_ratio)
    &&& is_median(k, ratios_of(run.shots@), q.median_ratio)
    &&& q.wander_rms == run.wander_rms
    &&& q.focal_ratio@ == ratios_of(run.shots@)
    &&& q.strehl@ == strehls_of(run.shots@)
    &&& q.i_focus_vacuum == run.i_focus_vacuum
    &&& q.i_threshold == run.i_threshold
}

/// Strength `i` of a sweep.
pub open spec fn is_strength<K: IgnitionSweepCase>(
    k: K,
    p: IgnitionSweepParams<K::Real>,
    i: int,
    cn2: K::Real,
) -> bool {
    call_ensures(K::sweep_strength, (&k, p.cn2_min, p.cn2_max, i as usize, p.points), cn2)
}

/// Point `i` of a sweep.
pub open spec fn is_point<K: IgnitionSweepCase>(
    k: K,
    p: IgnitionSweepParams<K::Real>,
    i: int,
    q: SweepPoint<K::Real>,
) -> bool {
    &&& is_strength(k, p, i, q.cn2)
    &&& exists|run: IgnitionRun<K::Real>| #[trigger]
        is_ignition_run(k, at_strength(p, q.cn2), Ok(run)) && is_point_of(k, p, run, q)
}

/// The first points of a sweep.
pub open spec fn are_points<K: IgnitionSweepCase>(
    k: K,
    p: IgnitionSweepParams<K::Real>,
    points: Seq<SweepPoint<K::Real>>,
) -> bool {
    forall|i: int| 0 <= i < points.len() ==> is_point(k, p, i, #[trigger] points[i])
}

/// A sweep that ends at a strength whose ensemble has no result, the first such.
pub open spec fn is_sweep_cut<K: IgnitionSweepCase>(
    k: K,
    p: IgnitionSweepParams<K::Real>,
    points: Seq<SweepPoint<K::Real>>,
    cn2: K::Real,
    e: IgnitionError<K::Real, <K::Path as Medium<K>>::Refusal>,
) -> bool {
    &&& points.len() < p.points
    &&& are_points(k, p, points)
    &&& is_strength(k, p, points.len() as int, cn2)
    &&& is_ignition_run(k, at_strength(p, cn2), Err(e))
}

/// The strengths and fractions of some points.
pub open spec fn curve_of<R>(points: Seq<SweepPoint<R>>) -> Seq<(R, R)> {
    Seq::new(points.len(), |i: int| (points[i].cn2, points[i].p_ignite))
}

/// The range of a sweep is positive and increasing.
pub open spec fn is_range_judged<K: IgnitionSweepCase>(
    k: K,
    p: IgnitionSweepParams<K::Real>,
    good: bool,
) -> bool {
    if good {
        &&& call_ensures(K::is_above_zero, (&k, p.cn2_min), true)
        &&& call_ensures(K::exceeds, (&k, p.cn2_max, p.cn2_min), true)
    } else {
        ||| call_ensures(K::is_above_zero, (&k, p.cn2_min), false)
        ||| call_ensures(K::exceeds, (&k, p.cn2_max, p.cn2_min), false)
    }
}

/// What [`run_ignition_sweep`] may return.
pub open spec fn is_ignition_sweep<K: IgnitionSweepCase>(
    k: K,
    p: IgnitionSweepParams<K::Real>,
    r: Result<IgnitionSweepRun<K::Real>, SweepError<K::Real, <K::Path as Medium<K>>::Refusal>>,
) -> bool {
    match r {
        Err(SweepError::TooFewPoints) => p.points < 2,
        Err(SweepError::BadRange) => p.points >= 2 && is_range_judged(k, p, false),
        Err(SweepError::Ignition(e)) => {
            &&& p.points >= 2
            &&& is_range_judged(k, p, true)
            &&& exists|points: Seq<SweepPoint<K::Real>>, cn2: K::Real| #[trigger]
                is_sweep_cut(k, p, points, cn2, e)
        },
        Ok(run) => {
            &&& p.points >= 2
            &&& is_range_judged(k, p, true)
            &&& run.points@.len() == p.points
            &&& are_points(k, p, run.points@)
            &&& is_transition(k, curve_of(run.points@), run.transition_decades)
        },
    }
}

/// What a sweep reports of an ensemble.
fn point_of<K: IgnitionSweepCase>(
    k: &K,
    p: &IgnitionSweepParams<K::Real>,
    cn2: K::Real,
    run: &IgnitionRun<K::Real>,
) -> (q: SweepPoint<K::Real>)
    requires
        run.shots@.len() > 0,
    ensures
        q.cn2 == cn2,
        is_point_of(*k, *p, *run, q),
{
    let n: usize = run.shots.len();
    let mut focal_ratio: Vec<K::Real> = Vec::with_capacity(n);
    let mut strehl: Vec<K::Real> = Vec::with_capacity(n);
    for i in 0..n
        invariant
            n == run.shots@.len(),
            focal_ratio@ == ratios_of(run.shots@).subrange(0, i as int),
            strehl@ == strehls_of(run.shots@).subrange(0, i as int),
    {
        focal_ratio.push(run.shots[i].focal_ratio);
        strehl.push(run.shots[i].strehl);
        proof {
            assert(focal_ratio@ =~= ratios_of(run.shots@).subrange(0, i + 1));
            assert(strehl@ =~= strehls_of(run.shots@).subrange(0, i + 1));
        }
    }
    proof {
        assert(focal_ratio@ =~= ratios_of(run.shots@));
        assert(strehl@ =~= strehls_of(run.shots@));
    }
    let sorted: Vec<K::Real> = sorted_of(k, focal_ratio.as_slice());
    let median_ratio: K::Real = sorted[sorted.len() / 2];
    proof {
        assert(is_sorting(*k, focal_ratio@, sorted@));
    }
    let r0: K::Real = k.fried_r0(cn2, p.base.wavelength, p.base.z);
    let mean_ratio: K::Real = mean_of(k, focal_ratio.as_slice());
    SweepPoint {
        cn2,
        r0,
        d_over_r0: k.ratio(p.base.aperture, r0),
        p_ignite: run.p_ignite,
        p_ignite_se: k.standard_error(run.p_ignite, p.base.realizations),
        mean_ratio,
        median_ratio,
        wander_rms: run.wander_rms,
        focal_ratio,
        strehl,
        i_focus_vacuum: run.i_focus_vacuum,
        i_threshold: run.i_threshold,
    }
}

/// An ensemble that has a result has members.
proof fn lemma_run_has_members<K: IgnitionCase>(
    k: K,
    p: IgnitionParams<K::Real>,
    run: IgnitionRun<K::Real>,
)
    requires
        is_ignition_run(k, p, Ok(run)),
    ensures
        run.shots@.len() == p.realizations,
        p.realizations > 0,
{
}

/// Sweep the strength of the turbulence.
pub fn run_ignition_sweep<K: IgnitionSweepCase + Copy + Sync>(
    k: &K,
    p: &IgnitionSweepParams<K::Real>,
) -> (r: Result<IgnitionSweepRun<K::Real>, SweepError<K::Real, <K::Path as Medium<K>>::Refusal>>) where
    K::Real: Send + Sync,
    K::Kinetics: Sync,
    <K::Path as Medium<K>>::Refusal: Send,

    requires
        is_run_size(p.base.n as int, 0),
        is_launchable(*k, p.base.dx, p.base.wavelength, p.base.w0),
    ensures
        is_ignition_sweep(*k, *p, r),
{
    if p.points < 2 {
        return Err(SweepError::TooFewPoints);
    }
    if !(k.is_above_zero(p.cn2_min) && k.exceeds(p.cn2_max, p.cn2_min)) {
        return Err(SweepError::BadRange);
    }
    let n: usize = p.points;
    let mut points: Vec<SweepPoint<K::Real>> = Vec::new();
    let mut curve: Vec<(K::Real, K::Real)> = Vec::new();
    for i in 0..n
        invariant
            n == p.points,
            p.points >= 2,
            is_range_judged(*k, *p, true),
            is_run_size(p.base.n as int, 0),
            is_launchable(*k, p.base.dx, p.base.wavelength, p.base.w0),
            points@.len() == i,
            are_points(*k, *p, points@),
            curve@ == curve_of(points@),
    {
        let cn2: K::Real = k.sweep_strength(p.cn2_min, p.cn2_max, i, p.points);
        let base: IgnitionParams<K::Real> = IgnitionParams { cn2, ..p.base };
        proof {
            assert(is_strength(*k, *p, i as int, cn2));
        }
        match run_ignition(k, &base) {
            Err(e) => {
                proof {
                    assert(is_sweep_cut(*k, *p, points@, cn2, e));
                }
                return Err(SweepError::Ignition(e));
            },
            Ok(run) => {
                proof {
                    lemma_run_has_members(*k, base, run);
                }
                let q: SweepPoint<K::Real> = point_of(k, p, cn2, &run);
                let ghost shorter = points@;
                proof {
                    assert(is_ignition_run(*k, at_strength(*p, q.cn2), Ok(run)));
                    assert(is_point(*k, *p, i as int, q));
                }
                curve.push((q.cn2, q.p_ignite));
                points.push(q);
                proof {
                    assert forall|l: int| 0 <= l < points@.len() implies is_point(
                        *k,
                        *p,
                        l,
                        #[trigger] points@[l],
                    ) by {
                        if l < i {
                            assert(points@[l] == shorter[l]);
                        }
                    }
                    assert(curve@ =~= curve_of(points@));
                }
            },
        }
    }
    let transition_decades: Option<K::Real> = transition_width_decades(k, curve.as_slice());
    Ok(IgnitionSweepRun { points, transition_decades })
}

} // verus!

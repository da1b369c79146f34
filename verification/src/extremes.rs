//! What is largest, what is in the middle and where a curve falls.
//!
//! The peak of an intensity, of a pressure or of an absorption is no less than any of
//! the values that it was taken over. A median has half of the values on either side.
//! The width of a transition is the distance between the two places at which the curve
//! falls through its two levels.
use crate::algebra::{lemma_associates, lemma_commutes, lemma_keeps_order};
use crate::euler1d::Primitive;
use crate::euler2d::Primitive2d;
use crate::field::{is_power, raises_peak, Field};
use crate::ignition_replay::{is_ordered_by, lemma_ascent_is_sorted};
use crate::ignition_sweep::{
    curve_of, is_first_fall, is_ignition_sweep, is_level_passed, is_median, is_no_fall_at,
    is_sorting, IgnitionSweepCase, IgnitionSweepParams, IgnitionSweepRun,
};
use crate::lsd::{
    are_predicted, are_states, is_front_weak, is_looked_at, is_max, is_max_from_zero, is_max_run,
    is_next_step, is_pressure_peak, is_regime_check, is_verdict, Beam1d, Column1d,
};
use crate::lsd2d::{is_cell_line, Beam2d, Column2d};
use crate::lsd_case::{
    is_focal_peak, is_higher, is_peak_leg, is_peak_run, is_peak_state, is_physical_peak,
    is_scaled_peak,
};
use crate::optics::Optics;
use crate::plane::{flat, is_fold, is_fold_run, lemma_flat_bound, lemma_flat_unflat, Plane};
use crate::riemann::Acoustics;
use vstd::prelude::*;

verus! {

/// A median has the values that do not exceed it on one side and those that it does not
/// exceed on the other: put in some order, the first half and one more are at most the
/// median, and the rest are at least it.
pub proof fn law_median_has_half_on_either_side<K: Optics>(
    k: K,
    values: Seq<K::Real>,
    m: K::Real,
    leq: spec_fn(K::Real, K::Real) -> bool,
) -> (ordered: Seq<K::Real>)
    requires
        is_ordered_by(k, leq),
        values.len() > 0,
        is_median(k, values, m),
    ensures
        ordered.to_multiset() == values.to_multiset(),
        ordered.len() == values.len(),
        forall|i: int| 0 <= i <= values.len() / 2 && i < values.len() ==> leq(#[trigger] ordered[i], m),
        forall|i: int| values.len() / 2 <= i < values.len() ==> leq(m, #[trigger] ordered[i]),
{
    let s = choose|sorted: Seq<K::Real>| #[trigger]
        is_sorting(k, values, sorted) && m == sorted[sorted.len() as int / 2];
    s.to_multiset_ensures();
    values.to_multiset_ensures();
    let h = s.len() as int / 2;
    assert forall|i: int| 0 <= i <= h && i < s.len() implies leq(#[trigger] s[i], m) by {
        if i < h {
            lemma_ascent_is_sorted(k, s, leq, i, h);
        }
    }
    assert forall|i: int| h <= i < s.len() implies leq(m, #[trigger] s[i]) by {
        if h < i {
            lemma_ascent_is_sorted(k, s, leq, h, i);
        }
    }
    s
}

/// Levels are compared by worth, and a crossing lies between the two points that it is
/// found from, on a scale of decades.
#[verifier::opaque]
pub open spec fn crosses_between<K: IgnitionSweepCase>(
    k: K,
    worth: spec_fn(K::Real) -> real,
    decades: spec_fn(K::Real) -> real,
) -> bool {
    &&& forall|a: K::Real, b: K::Real, g: bool| #[trigger]
        call_ensures(K::exceeds, (&k, a, b), g) ==> g == (worth(a) > worth(b))
    &&& forall|a: K::Real, b: K::Real, g: bool| #[trigger]
        call_ensures(K::reaches, (&k, a, b), g) ==> g == (worth(a) >= worth(b))
    &&& forall|a: K::Real, b: K::Real, c: K::Real| #[trigger]
        call_ensures(K::minus, (&k, a, b), c) ==> worth(c) == worth(a) - worth(b)
    &&& forall|before: (K::Real, K::Real), after: (K::Real, K::Real), level: K::Real, x: K::Real|
        #[trigger] call_ensures(K::crossing, (&k, before, after, level), x) && worth(before.1)
            >= worth(level) > worth(after.1) ==> decades(before.0) <= worth(x) <= decades(after.0)
}

/// The curve falls through a level after point `i` and nowhere before.
pub open spec fn first_falls_at<R>(
    worth: spec_fn(R) -> real,
    curve: Seq<(R, R)>,
    level: real,
    i: int,
) -> bool {
    &&& 0 <= i < curve.len() - 1
    &&& worth(curve[i].1) >= level > worth(curve[i + 1].1)
    &&& forall|l: int|
        0 <= l < i ==> worth(#[trigger] curve[l].1) < level || worth(curve[l + 1].1) >= level
}

proof fn lemma_level_is_passed_there<K: IgnitionSweepCase>(
    k: K,
    curve: Seq<(K::Real, K::Real)>,
    level: K::Real,
    x: K::Real,
    worth: spec_fn(K::Real) -> real,
    decades: spec_fn(K::Real) -> real,
) -> (i: int)
    requires
        crosses_between(k, worth, decades),
        is_level_passed(k, curve, level, Some(x)),
    ensures
        first_falls_at(worth, curve, worth(level), i),
        decades(curve[i].0) <= worth(x) <= decades(curve[i + 1].0),
{
    let i = choose|i: int| #[trigger]
        is_first_fall(k, curve, level, i) && call_ensures(
            K::crossing,
            (&k, curve[i], curve[i + 1], level),
            x,
        );
    reveal(crosses_between);
    assert forall|l: int| 0 <= l < i implies worth(#[trigger] curve[l].1) < worth(level) || worth(
        curve[l + 1].1,
    ) >= worth(level) by {
        assert(is_no_fall_at(k, curve, level, l));
    }
    i
}

/// The transition of a sweep runs from where the lit fraction first falls through the
/// high level to where it first falls through the low one: its width in decades is that
/// between the strengths on either side of the two.
pub proof fn law_transition_is_where_the_fraction_falls<K: IgnitionSweepCase>(
    k: K,
    p: IgnitionSweepParams<K::Real>,
    run: IgnitionSweepRun<K::Real>,
    width: K::Real,
    worth: spec_fn(K::Real) -> real,
    decades: spec_fn(K::Real) -> real,
    high: real,
    low: real,
) -> (r: (int, int))
    requires
        crosses_between(k, worth, decades),
        forall|l: K::Real| #[trigger] call_ensures(K::high_level, (&k,), l) ==> worth(l) == high,
        forall|l: K::Real| #[trigger] call_ensures(K::low_level, (&k,), l) ==> worth(l) == low,
        is_ignition_sweep(k, p, Ok(run)),
        run.transition_decades == Some(width),
    ensures
        0 <= r.0 < run.points@.len() - 1,
        0 <= r.1 < run.points@.len() - 1,
        worth(run.points@[r.0].p_ignite) >= high > worth(run.points@[r.0 + 1].p_ignite),
        worth(run.points@[r.1].p_ignite) >= low > worth(run.points@[r.1 + 1].p_ignite),
        forall|l: int|
            0 <= l < r.0 ==> worth((#[trigger] run.points@[l]).p_ignite) < high || worth(
                run.points@[l + 1].p_ignite,
            ) >= high,
        forall|l: int|
            0 <= l < r.1 ==> worth((#[trigger] run.points@[l]).p_ignite) < low || worth(
                run.points@[l + 1].p_ignite,
            ) >= low,
        decades(run.points@[r.1].cn2) - decades(run.points@[r.0 + 1].cn2) <= worth(width),
        worth(width) <= decades(run.points@[r.1 + 1].cn2) - decades(run.points@[r.0].cn2),
{
    let curve = curve_of(run.points@);
    let (top, bottom, start, end) = choose|
        high: K::Real,
        low: K::Real,
        start: Option<K::Real>,
        end: Option<K::Real>,
    |
        {
            &&& #[trigger] call_ensures(K::high_level, (&k,), high)
            &&& #[trigger] call_ensures(K::low_level, (&k,), low)
            &&& #[trigger] is_level_passed(k, curve, high, start)
            &&& #[trigger] is_level_passed(k, curve, low, end)
            &&& match (start, end) {
                (Some(a), Some(b)) => call_ensures(K::minus, (&k, b, a), width),
                _ => false,
            }
        };
    let (a, b) = (start->0, end->0);
    assert(start == Some(a) && end == Some(b));
    let i = lemma_level_is_passed_there(k, curve, top, a, worth, decades);
    let j = lemma_level_is_passed_there(k, curve, bottom, b, worth, decades);
    assert(worth(width) == worth(b) - worth(a)) by {
        reveal(crosses_between);
    }
    assert(forall|l: int| 0 <= l < curve.len() ==> #[trigger] curve[l] == (run.points@[l].cn2, run.points@[l].p_ignite));
    assert forall|l: int| 0 <= l < i implies worth((#[trigger] run.points@[l]).p_ignite) < high || worth(
        run.points@[l + 1].p_ignite,
    ) >= high by {
        assert(worth(curve[l].1) < high || worth(curve[l + 1].1) >= high);
    }
    assert forall|l: int| 0 <= l < j implies worth((#[trigger] run.points@[l]).p_ignite) < low || worth(
        run.points@[l + 1].p_ignite,
    ) >= low by {
        assert(worth(curve[l].1) < low || worth(curve[l + 1].1) >= low);
    }
    (i, j)
}

/// A fold that never falls and never stays below what it meets ends no lower than
/// anything that it met.
proof fn lemma_fold_tops<T, S>(
    rows: Seq<Seq<T>>,
    width: nat,
    init: S,
    step: spec_fn(S, int, int, T, S) -> bool,
    run: Seq<S>,
    measure: spec_fn(S) -> real,
    amount: spec_fn(T) -> real,
    a: int,
    b: int,
)
    requires
        width > 0,
        is_fold_run(rows, width, init, step, run),
        forall|s: S, l: int, x: int, v: T, next: S| #[trigger]
            step(s, l, x, v, next) ==> measure(next) >= measure(s) && measure(next) >= amount(v),
        0 <= a <= b < run.len(),
    ensures
        measure(run[a]) <= measure(run[b]),
    decreases b - a,
{
    if a < b {
        lemma_fold_tops(rows, width, init, step, run, measure, amount, a, b - 1);
        let at = b - 1;
        let w = width as int;
        lemma_flat_unflat(w, at);
        let (j, i) = (at / w, at % w);
        assert(0 <= j < rows.len()) by (nonlinear_arith)
            requires
                w > 0,
                0 <= i,
                i < w,
                at == j * w + i,
                0 <= at,
                at < rows.len() * w,
        ;
        assert(flat(w, j, i) == at);
        assert(step(run[at], j, i, rows[j][i], run[at + 1]));
    }
}

/// The focal peak of a beam is the highest intensity of its field, scaled to the power of
/// the beam: no sample, in proportion, is brighter.
pub proof fn law_focal_peak_is_the_brightest_sample<O: Optics>(
    optics: O,
    beam_power: O::Real,
    field: Field<O::Real, O::Complex>,
    peak: O::Real,
    worth: spec_fn(O::Real) -> real,
    j: int,
    i: int,
    sample: O::Real,
) -> (power: O::Real)
    requires
        forall|a: O::Real, b: O::Real, c: O::Real| #[trigger]
            call_ensures(O::larger, (&optics, a, b), c) ==> worth(c) >= worth(a) && worth(c)
                >= worth(b),
        forall|a: O::Real, b: O::Real, c: O::Real| #[trigger]
            call_ensures(O::times, (&optics, a, b), c) ==> worth(c) == worth(a) * worth(b),
        forall|a: O::Real, b: O::Real, c: O::Real| #[trigger]
            call_ensures(O::ratio, (&optics, a, b), c) && worth(b) != 0real ==> worth(c) * worth(b)
                == worth(a),
        forall|a: O::Real| #[trigger]
            call_ensures(O::is_positive, (&optics, a), true) ==> worth(a) > 0real,
        forall|c: O::Complex, a: O::Real, b: O::Real|
            #![trigger call_ensures(O::intensity, (&optics, c), a), call_ensures(O::intensity, (&optics, c), b)]
            call_ensures(O::intensity, (&optics, c), a) && call_ensures(O::intensity, (&optics, c), b)
                ==> a == b,
        is_focal_peak(optics, beam_power, field, Ok(peak)),
        0 <= j < field.u@.len(),
        0 <= i < field.u.spec_width(),
        call_ensures(O::intensity, (&optics, field.u@[j][i]), sample),
    ensures
        is_power(optics, field.u@, field.u.spec_width(), power),
        worth(peak) * worth(power) >= worth(beam_power) * worth(sample),
{
    let power = choose|power: O::Real| #[trigger]
        is_power(optics, field.u@, field.u.spec_width(), power) && call_ensures(
            O::is_positive,
            (&optics, beam_power),
            true,
        ) && call_ensures(O::is_positive, (&optics, power), true) && is_scaled_peak(
            optics,
            beam_power,
            power,
            field,
            peak,
        );
    let unit = choose|per_unit: O::Real| #[trigger]
        call_ensures(O::ratio, (&optics, beam_power, power), per_unit) && is_physical_peak(
            optics,
            field,
            per_unit,
            peak,
        );
    let n = field.u.spec_width();
    let (zero, top) = choose|zero: O::Real, top: O::Real|
        {
            &&& #[trigger] call_ensures(O::zero, (&optics,), zero)
            &&& #[trigger] is_fold(field.u@, n, zero, raises_peak(optics), top)
            &&& call_ensures(O::times, (&optics, unit, top), peak)
        };
    let step = raises_peak(optics);
    let run = choose|run: Seq<O::Real>| #[trigger]
        is_fold_run(field.u@, n, zero, step, run) && run.last() == top;
    let bright = |c: O::Complex|
        worth(choose|p: O::Real| #[trigger] call_ensures(O::intensity, (&optics, c), p));
    assert forall|s: O::Real, l: int, x: int, v: O::Complex, next: O::Real| #[trigger]
        step(s, l, x, v, next) implies worth(next) >= worth(s) && worth(next) >= bright(v) by {}
    let at = flat(n as int, j, i);
    lemma_flat_bound(field.u@.len() as int, n as int, j, i);
    assert(step(run[at], j, i, field.u@[j][i], run[at + 1]));
    lemma_fold_tops(field.u@, n, zero, step, run, worth, bright, at + 1, run.len() - 1);
    let (u, t, s, w) = (worth(unit), worth(top), worth(sample), worth(power));
    assert(t >= s);
    lemma_keeps_order(s, t, worth(beam_power));
    lemma_commutes(u, t);
    lemma_associates(t, u, w);
    lemma_commutes(t, u * w);
    power
}

proof fn lemma_peak_tops<H: Beam1d>(
    hydro: H,
    start: Primitive<H::Real>,
    states: Seq<Primitive<H::Real>>,
    run: Seq<Primitive<H::Real>>,
    worth: spec_fn(H::Real) -> real,
    i: int,
)
    requires
        is_peak_run(hydro, start, states, run),
        forall|a: H::Real, b: H::Real, g: bool| #[trigger]
            call_ensures(H::exceeds, (&hydro, a, b), g) ==> g == (worth(a) > worth(b)),
        0 <= i < run.len(),
    ensures
        worth(run[i].p) >= worth(start.p),
        forall|l: int| 0 <= l < i ==> worth(run[i].p) >= worth((#[trigger] states[l]).p),
        run[i] == start || exists|l: int| 0 <= l < i && #[trigger] states[l] == run[i],
    decreases i,
{
    if i > 0 {
        lemma_peak_tops(hydro, start, states, run, worth, i - 1);
        assert(is_peak_leg(hydro, states, run, i - 1));
        assert(is_higher(hydro, run[i - 1], states[i - 1], run[i - 1 + 1]));
        if run[i] == run[i - 1] && run[i] != start {
            let l = choose|l: int| 0 <= l < i - 1 && #[trigger] states[l] == run[i - 1];
            assert(states[l] == run[i]);
        } else if run[i] != start {
            assert(states[i - 1] == run[i]);
        }
    }
}

/// The state that a closure is read at has the highest pressure: it is that of a cell, or
/// the ambient where no cell is higher, and no cell is higher than it.
pub proof fn law_peak_state_has_the_highest_pressure<H: Beam1d>(
    hydro: H,
    start: Primitive<H::Real>,
    states: Seq<Primitive<H::Real>>,
    peak: Primitive<H::Real>,
    worth: spec_fn(H::Real) -> real,
)
    requires
        is_peak_state(hydro, start, states, peak),
        forall|a: H::Real, b: H::Real, g: bool| #[trigger]
            call_ensures(H::exceeds, (&hydro, a, b), g) ==> g == (worth(a) > worth(b)),
    ensures
        worth(peak.p) >= worth(start.p),
        forall|l: int| 0 <= l < states.len() ==> worth(peak.p) >= worth((#[trigger] states[l]).p),
        peak == start || states.contains(peak),
{
    let run = choose|run: Seq<Primitive<H::Real>>| #[trigger]
        is_peak_run(hydro, start, states, run) && run.len() == states.len() + 1 && run.last()
            == peak;
    lemma_peak_tops(hydro, start, states, run, worth, run.len() - 1);
}

/// The larger of two numbers is one of them and no less than either, and what is above a
/// strong pressure is strong.
#[verifier::opaque]
pub open spec fn ranks_pressures<K: Beam1d>(k: K, worth: spec_fn(K::Real) -> real) -> bool {
    &&& forall|a: K::Real, b: K::Real, c: K::Real| #[trigger]
        call_ensures(K::larger, (&k, a, b), c) ==> worth(c) >= worth(a) && worth(c) >= worth(b) && (
        c == a || c == b)
    &&& forall|p: K::Real, q: K::Real, w: Primitive<K::Real>|
        #![trigger call_ensures(K::is_strong, (&k, p, w), true), call_ensures(K::is_strong, (&k, q, w), false)]
        call_ensures(K::is_strong, (&k, p, w), true) && call_ensures(K::is_strong, (&k, q, w), false)
            ==> worth(p) > worth(q)
    &&& forall|lowest: K::Real, w: Primitive<K::Real>| #[trigger]
        call_ensures(K::lowest, (&k,), lowest) ==> !#[trigger] call_ensures(
            K::is_strong,
            (&k, lowest, w),
            true,
        )
}

proof fn lemma_max_tops<K: Beam1d>(
    k: K,
    start: K::Real,
    values: Seq<K::Real>,
    run: Seq<K::Real>,
    worth: spec_fn(K::Real) -> real,
    i: int,
)
    requires
        ranks_pressures(k, worth),
        is_max_run(k, start, values, run),
        0 <= i < run.len(),
    ensures
        worth(run[i]) >= worth(start),
        forall|l: int| 0 <= l < i ==> worth(run[i]) >= worth(#[trigger] values[l]),
        run[i] == start || exists|l: int| 0 <= l < i && #[trigger] values[l] == run[i],
    decreases i,
{
    if i > 0 {
        lemma_max_tops(k, start, values, run, worth, i - 1);
        assert(values[i - 1] == values[i - 1]);
        assert(call_ensures(K::larger, (&k, run[i - 1], values[i - 1]), run[i - 1 + 1]));
        assert(worth(run[i]) >= worth(run[i - 1]) && worth(run[i]) >= worth(values[i - 1]) && (
        run[i] == run[i - 1] || run[i] == values[i - 1])) by {
            reveal(ranks_pressures);
        }
        if run[i] == run[i - 1] && run[i] != start {
            let l = choose|l: int| 0 <= l < i - 1 && #[trigger] values[l] == run[i - 1];
            assert(values[l] == run[i]);
        }
    }
}

/// A regime that is accepted has a front: some cell of the column is at a pressure that
/// is strong beside the ambient one.
pub proof fn law_accepted_regime_has_a_strong_cell<K: Beam1d>(
    pre: Column1d<K>,
    post: Column1d<K>,
    worth: spec_fn(K::Real) -> real,
) -> (r: (Seq<Primitive<K::Real>>, int))
    requires
        ranks_pressures(post.hydro.scheme, worth),
        is_regime_check(pre, post, Ok(())),
    ensures
        are_states(post, r.0),
        0 <= r.1 < r.0.len(),
        call_ensures(K::is_strong, (&post.hydro.scheme, r.0[r.1].p, post.ambient), true),
{
    let (mid, alpha, top) = choose|mid: Column1d<K>, alpha: Seq<K::Real>, top: K::Real| #[trigger]
        is_looked_at(pre, mid, alpha, top) && is_verdict(mid, top, post, Ok(()));
    let k = post.hydro.scheme;
    let (states, p, p_max) = choose|
        states: Seq<Primitive<K::Real>>,
        p: Seq<K::Real>,
        p_max: K::Real,
    | #[trigger]
        is_pressure_peak(post, states, p, p_max) && call_ensures(
            K::is_strong,
            (&k, p_max, post.ambient),
            true,
        );
    let lowest = choose|lowest: K::Real| #[trigger]
        call_ensures(K::lowest, (&k,), lowest) && is_max(k, lowest, p, p_max);
    let run = choose|run: Seq<K::Real>| #[trigger] is_max_run(k, lowest, p, run) && run.last()
        == p_max;
    lemma_max_tops(k, lowest, p, run, worth, run.len() - 1);
    assert(p_max != lowest) by {
        reveal(ranks_pressures);
    }
    let l = choose|l: int| 0 <= l < run.len() - 1 && #[trigger] p[l] == run[run.len() - 1];
    assert(p[l] == states[l].p);
    (states, l)
}

/// A front that is found weak is weak everywhere: no cell of the column is at a strong
/// pressure, and the ratio that is reported is no less than that of any cell.
pub proof fn law_weak_front_has_no_strong_cell<K: Beam1d>(
    c: Column1d<K>,
    ratio: K::Real,
    worth: spec_fn(K::Real) -> real,
    l: int,
) -> (states: Seq<Primitive<K::Real>>)
    requires
        ranks_pressures(c.hydro.scheme, worth),
        forall|a: K::Real, b: K::Real, q: K::Real| #[trigger]
            call_ensures(K::ratio, (&c.hydro.scheme, a, b), q) ==> worth(q) * worth(b) == worth(a),
        is_front_weak(c, ratio),
        0 <= l < c.hydro.cells.len(),
    ensures
        are_states(c, states),
        !call_ensures(K::is_strong, (&c.hydro.scheme, states[l].p, c.ambient), true),
        worth(states[l].p) <= worth(ratio) * worth(c.ambient.p),
{
    let k = c.hydro.scheme;
    let (states, p, p_max) = choose|
        states: Seq<Primitive<K::Real>>,
        p: Seq<K::Real>,
        p_max: K::Real,
    |
        {
            &&& #[trigger] is_pressure_peak(c, states, p, p_max)
            &&& call_ensures(K::is_strong, (&k, p_max, c.ambient), false)
            &&& call_ensures(K::ratio, (&k, p_max, c.ambient.p), ratio)
        };
    let lowest = choose|lowest: K::Real| #[trigger]
        call_ensures(K::lowest, (&k,), lowest) && is_max(k, lowest, p, p_max);
    let run = choose|run: Seq<K::Real>| #[trigger]
        is_max_run(k, lowest, p, run) && run.last() == p_max;
    lemma_max_tops(k, lowest, p, run, worth, run.len() - 1);
    assert(p[l] == states[l].p);
    reveal(ranks_pressures);
    states
}

/// A wide column that is accepted has a front in some ring: the pressure of some cell is
/// strong beside the ambient one.
pub proof fn law_accepted_rings_have_a_strong_cell<K: Beam2d>(
    c: Column2d<K>,
    worth: spec_fn(K::Real) -> real,
) -> (r: (int, int, Primitive<K::Real>))
    requires
        ranks_pressures(c.line, worth),
        crate::lsd2d::is_regime_check(c, Ok(())),
    ensures
        0 <= r.0 < c.hydro.cells.len(),
        0 <= r.1 < c.hydro.n_x,
        is_cell_line(c, r.0, r.1, r.2),
        call_ensures(<K::Line as Beam1d>::is_strong, (&c.line, r.2.p, c.ambient_line), true),
{
    let k = c.line;
    let (p, p_max) = choose|p: Plane<K::Real>, p_max: K::Real| #[trigger]
        crate::lsd2d::is_pressure_peak(c, p, p_max) && call_ensures(
            <K::Line as Beam1d>::is_strong,
            (&k, p_max, c.ambient_line),
            true,
        );
    let values = p.stored();
    let lowest = choose|lowest: K::Real| #[trigger]
        call_ensures(<K::Line as Beam1d>::lowest, (&k,), lowest) && is_max(k, lowest, values, p_max);
    let run = choose|run: Seq<K::Real>| #[trigger]
        is_max_run(k, lowest, values, run) && run.last() == p_max;
    lemma_max_tops(k, lowest, values, run, worth, run.len() - 1);
    assert(p_max != lowest) by {
        reveal(ranks_pressures);
    }
    let l = choose|l: int| 0 <= l < run.len() - 1 && #[trigger] values[l] == run[run.len() - 1];
    let (h, w) = (p@.len() as int, p.spec_width() as int);
    assert(w > 0) by (nonlinear_arith)
        requires
            0 <= l,
            l < h * w,
            h >= 0,
            w >= 0,
    ;
    lemma_flat_unflat(w, l);
    let (j, i) = (l / w, l % w);
    assert(0 <= j < h) by (nonlinear_arith)
        requires
            w > 0,
            0 <= i,
            i < w,
            l == j * w + i,
            0 <= l,
            l < h * w,
    ;
    assert(flat(w, j, i) == l);
    assert(p@[j][i] == p_max);
    let cell = choose|q: Primitive<K::Real>| #[trigger]
        is_cell_line(c, j, i, q) && p@[j][i] == q.p;
    (j, i, cell)
}

/// A wide front that is found weak is weak in every ring.
pub proof fn law_weak_rings_have_no_strong_cell<K: Beam2d>(
    c: Column2d<K>,
    ratio: K::Real,
    worth: spec_fn(K::Real) -> real,
    j: int,
    i: int,
) -> (cell: Primitive<K::Real>)
    requires
        ranks_pressures(c.line, worth),
        forall|a: K::Real, b: K::Real, q: K::Real| #[trigger]
            call_ensures(<K::Line as Beam1d>::ratio, (&c.line, a, b), q) ==> worth(q) * worth(b)
                == worth(a),
        crate::lsd2d::is_front_weak(c, ratio),
        0 <= j < c.hydro.cells.len(),
        0 <= i < c.hydro.n_x,
    ensures
        is_cell_line(c, j, i, cell),
        !call_ensures(<K::Line as Beam1d>::is_strong, (&c.line, cell.p, c.ambient_line), true),
        worth(cell.p) <= worth(ratio) * worth(c.ambient_line.p),
{
    let k = c.line;
    let (p, p_max) = choose|p: Plane<K::Real>, p_max: K::Real|
        {
            &&& #[trigger] crate::lsd2d::is_pressure_peak(c, p, p_max)
            &&& call_ensures(
                <K::Line as Beam1d>::is_strong,
                (&k, p_max, c.ambient_line),
                false,
            )
            &&& call_ensures(<K::Line as Beam1d>::ratio, (&k, p_max, c.ambient_line.p), ratio)
        };
    let values = p.stored();
    let lowest = choose|lowest: K::Real| #[trigger]
        call_ensures(<K::Line as Beam1d>::lowest, (&k,), lowest) && is_max(k, lowest, values, p_max);
    let run = choose|run: Seq<K::Real>| #[trigger]
        is_max_run(k, lowest, values, run) && run.last() == p_max;
    lemma_max_tops(k, lowest, values, run, worth, run.len() - 1);
    let w = p.spec_width() as int;
    lemma_flat_bound(p@.len() as int, w, j, i);
    assert(p@[j][i] == values[flat(w, j, i)]);
    let cell = choose|q: Primitive<K::Real>| #[trigger]
        is_cell_line(c, j, i, q) && p@[j][i] == q.p;
    reveal(ranks_pressures);
    cell
}

proof fn lemma_largest_tops<K: Beam1d>(
    k: K,
    values: Seq<K::Real>,
    top: K::Real,
    worth: spec_fn(K::Real) -> real,
    l: int,
)
    requires
        forall|a: K::Real, b: K::Real, c: K::Real| #[trigger]
            call_ensures(K::larger, (&k, a, b), c) ==> worth(c) >= worth(a) && worth(c) >= worth(b),
        is_max_from_zero(k, values, top),
        0 <= l < values.len(),
    ensures
        worth(values[l]) <= worth(top),
{
    let zero = choose|zero: K::Real| #[trigger]
        call_ensures(K::zero, (&k,), zero) && is_max(k, zero, values, top);
    let run = choose|run: Seq<K::Real>| #[trigger]
        is_max_run(k, zero, values, run) && run.last() == top;
    assert(values[l] == values[l]);
    assert(call_ensures(K::larger, (&k, run[l], values[l]), run[l + 1]));
    lemma_run_only_rises(k, zero, values, run, worth, l + 1, run.len() - 1);
}

proof fn lemma_run_only_rises<K: Beam1d>(
    k: K,
    start: K::Real,
    values: Seq<K::Real>,
    run: Seq<K::Real>,
    worth: spec_fn(K::Real) -> real,
    a: int,
    b: int,
)
    requires
        forall|x: K::Real, y: K::Real, z: K::Real| #[trigger]
            call_ensures(K::larger, (&k, x, y), z) ==> worth(z) >= worth(x) && worth(z) >= worth(y),
        is_max_run(k, start, values, run),
        0 <= a <= b < run.len(),
    ensures
        worth(run[a]) <= worth(run[b]),
    decreases b - a,
{
    if a < b {
        lemma_run_only_rises(k, start, values, run, worth, a, b - 1);
        assert(values[b - 1] == values[b - 1]);
        assert(call_ensures(K::larger, (&k, run[b - 1], values[b - 1]), run[b - 1 + 1]));
    }
}

/// A step of heated gas suits every cell: over it no signal goes further than the Courant
/// number allows, in any cell, at the speed that its own heating predicts.
pub proof fn law_coupled_step_suits_every_cell<K: Beam1d>(
    k: K,
    cfl: K::Real,
    states: Seq<Primitive<K::Real>>,
    q: Seq<K::Real>,
    dt: K::Real,
    next: K::Real,
    worth: spec_fn(K::Real) -> real,
    dx: real,
    l: int,
) -> (s: K::Real)
    requires
        is_next_step(k, cfl, states, q, dt, next),
        forall|a: K::Real, b: K::Real, c: K::Real| #[trigger]
            call_ensures(K::larger, (&k, a, b), c) ==> worth(c) >= worth(a) && worth(c) >= worth(b),
        forall|a: K::Real, t: K::Real| #[trigger]
            call_ensures(K::courant_step, (&k, cfl, a), t) ==> worth(t) * worth(a) == worth(cfl) * dx
                && worth(t) >= 0real,
        0 <= l < states.len(),
    ensures
        call_ensures(K::predicted_speed, (&k, states[l], q[l], dt), s),
        worth(next) * worth(s) <= worth(cfl) * dx,
{
    let (speeds, top) = choose|speeds: Seq<K::Real>, top: K::Real|
        {
            &&& #[trigger] are_predicted(k, states, q, dt, speeds)
            &&& #[trigger] is_max_from_zero(k, speeds, top)
            &&& call_ensures(K::courant_step, (&k, cfl, top), next)
        };
    lemma_largest_tops(k, speeds, top, worth, l);
    lemma_keeps_order(worth(speeds[l]), worth(top), worth(next));
    speeds[l]
}

/// The same of a wide column, at the rate at which signals cross each cell.
pub proof fn law_coupled_step_suits_every_ring<K: Beam2d>(
    c: Column2d<K>,
    states: Seq<Primitive2d<K::Real>>,
    q: Seq<K::Real>,
    dt: K::Real,
    next: K::Real,
    worth: spec_fn(K::Real) -> real,
    l: int,
) -> (s: K::Real)
    requires
        crate::lsd2d::is_next_step(c, states, q, dt, next),
        forall|a: K::Real, b: K::Real, d: K::Real| #[trigger]
            call_ensures(<K::Line as Acoustics>::larger, (&c.line, a, b), d) ==> worth(d) >= worth(a)
                && worth(d) >= worth(b),
        forall|a: K::Real, t: K::Real| #[trigger]
            call_ensures(K::courant_step, (&c.hydro.scheme, c.hydro.cfl, a), t) ==> worth(t) * worth(
                a,
            ) == worth(c.hydro.cfl) && worth(t) >= 0real,
        0 <= l < states.len(),
    ensures
        call_ensures(K::predicted_rate, (&c.hydro.scheme, states[l], q[l], dt), s),
        worth(next) * worth(s) <= worth(c.hydro.cfl),
{
    let (rates, top) = choose|rates: Seq<K::Real>, top: K::Real|
        {
            &&& #[trigger] crate::lsd2d::are_predicted(c.hydro.scheme, states, q, dt, rates)
            &&& #[trigger] is_max_from_zero(c.line, rates, top)
            &&& call_ensures(K::courant_step, (&c.hydro.scheme, c.hydro.cfl, top), next)
        };
    lemma_largest_tops(c.line, rates, top, worth, l);
    lemma_keeps_order(worth(rates[l]), worth(top), worth(next));
    rates[l]
}

} // verus!

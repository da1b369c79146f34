//! What a crosswind does with the heat of a beam.
//!
//! Each row of a slab is heated by its own light and by nothing else, from the upwind
//! edge to the sample in question. The index perturbation is the integral of that light,
//! a dark row has none, and a slab that is accepted has no row that would be refused.
use crate::airprops::AirProperties;
use crate::blooming::{
    is_blooming, is_drop, is_heated, is_heated_at, is_heated_run, is_heated_sample, is_response,
    is_slab_heated, Bloom, BloomingRefusal, Heating, ThermalBlooming,
};
use crate::grid::Grid;
use crate::plane::Plane;
use vstd::prelude::*;

verus! {

/// The arithmetic of the heating is a function of its arguments.
#[verifier::opaque]
pub open spec fn heats_reproducibly<K: Heating>(k: K) -> bool {
    &&& forall|a: K::Real, b: K::Real| #[trigger]
        call_ensures(K::zero, (&k,), a) && #[trigger] call_ensures(K::zero, (&k,), b) ==> a == b
    &&& forall|x: K::Real, y: K::Real, a: K::Real, b: K::Real| #[trigger]
        call_ensures(K::times, (&k, x, y), a) && #[trigger] call_ensures(K::times, (&k, x, y), b)
            ==> a == b
    &&& forall|c: K::Real, x: K::Real, y: K::Real, dx: K::Real, a: K::Real, b: K::Real| #[trigger]
        call_ensures(K::trapezoid, (&k, c, x, y, dx), a) && #[trigger] call_ensures(
            K::trapezoid,
            (&k, c, x, y, dx),
            b,
        ) ==> a == b
    &&& forall|x: K::Real, y: K::Real, a: K::Real, b: K::Real| #[trigger]
        call_ensures(K::midpoint_decay, (&k, x, y), a) && #[trigger] call_ensures(
            K::midpoint_decay,
            (&k, x, y),
            b,
        ) ==> a == b
    &&& forall|x: K::Real, y: K::Real, s: K::Real, d: K::Real, a: K::Real, b: K::Real| #[trigger]
        call_ensures(K::index_drop, (&k, x, y, s, d), a) && #[trigger] call_ensures(
            K::index_drop,
            (&k, x, y, s, d),
            b,
        ) ==> a == b
}

/// The row of an accepted slab, with its intensity integrals.
proof fn lemma_row_of_response<K: Heating>(
    k: K,
    m: Bloom<K::Real>,
    intensity: Plane<K::Real>,
    dz: K::Real,
    dn: Plane<K::Real>,
    j: int,
) -> (r: (K::Real, K::Real, Seq<K::Real>, Seq<K::Real>))
    requires
        is_response(k, m, intensity, dz, Ok(dn)),
        0 <= j < intensity@.len(),
        intensity.spec_width() > 0,
    ensures
        is_drop(k, m, dz, r.0),
        is_heated_run(k, m, r.0, intensity@[j], r.1, dn@[j], r.2, r.3),
        dn@[j].len() == intensity@[j].len() == intensity.spec_width(),
        dn@.len() == intensity@.len(),
{
    let (drop, tops) = choose|drop: K::Real, tops: Seq<K::Real>|
        {
            &&& is_drop(k, m, dz, drop)
            &&& #[trigger] is_heated(k, m, drop, intensity, dn, tops)
            &&& call_ensures(K::is_small, (&k, tops.last(), m.t0), true)
        };
    assert(is_heated_at(k, m, drop, intensity@, dn@, tops, j));
    let (cums, run) = choose|cums: Seq<K::Real>, run: Seq<K::Real>|
        {
            &&& #[trigger] is_heated_run(k, m, drop, intensity@[j], tops[j], dn@[j], cums, run)
            &&& dn@[j].len() == intensity@[j].len()
            &&& run.last() == tops[j + 1]
        };
    (drop, tops[j], cums, run)
}

proof fn lemma_integrals_are_one<K: Heating>(
    k: K,
    m: Bloom<K::Real>,
    drop: K::Real,
    a: Seq<K::Real>,
    b: Seq<K::Real>,
    x: K::Real,
    y: K::Real,
    dn: Seq<K::Real>,
    en: Seq<K::Real>,
    cums: Seq<K::Real>,
    sums: Seq<K::Real>,
    s: Seq<K::Real>,
    t: Seq<K::Real>,
    i: int,
)
    requires
        heats_reproducibly(k),
        is_heated_run(k, m, drop, a, x, dn, cums, s),
        is_heated_run(k, m, drop, b, y, en, sums, t),
        0 <= i < dn.len(),
        i < en.len(),
        forall|l: int| 0 <= l <= i ==> #[trigger] a[l] == b[l],
    ensures
        cums[i] == sums[i],
        dn[i] == en[i],
    decreases i,
{
    if i > 0 {
        lemma_integrals_are_one(k, m, drop, a, b, x, y, dn, en, cums, sums, s, t, i - 1);
        assert(is_heated_sample(k, m, drop, a, dn, cums, s, i));
        assert(is_heated_sample(k, m, drop, b, en, sums, t, i));
        assert(a[i - 1] == b[i - 1] && a[i] == b[i]);
    }
    reveal(heats_reproducibly);
}

/// The index perturbation at a sample depends on the light of its own row from the
/// upwind edge up to it, and on no other: wherever a row of one slab and a row of
/// another agree that far, they are perturbed alike there, whatever the slabs hold
/// elsewhere.
pub proof fn law_row_is_heated_by_its_own_light<K: Heating>(
    k: K,
    m: Bloom<K::Real>,
    dz: K::Real,
    intensity: Plane<K::Real>,
    dn: Plane<K::Real>,
    other: Plane<K::Real>,
    en: Plane<K::Real>,
    j: int,
    l: int,
    i: int,
)
    requires
        heats_reproducibly(k),
        is_response(k, m, intensity, dz, Ok(dn)),
        is_response(k, m, other, dz, Ok(en)),
        0 <= j < intensity@.len(),
        0 <= l < other@.len(),
        0 <= i < intensity.spec_width(),
        i < other.spec_width(),
        forall|x: int| 0 <= x <= i ==> #[trigger] intensity@[j][x] == other@[l][x],
    ensures
        dn@[j][i] == en@[l][i],
{
    let (drop, x, cums, s) = lemma_row_of_response(k, m, intensity, dz, dn, j);
    let (fall, y, sums, t) = lemma_row_of_response(k, m, other, dz, en, l);
    assert(drop == fall) by {
        reveal(heats_reproducibly);
    }
    lemma_integrals_are_one(
        k,
        m,
        drop,
        intensity@[j],
        other@[l],
        x,
        y,
        dn@[j],
        en@[l],
        cums,
        sums,
        s,
        t,
        i,
    );
}

/// The heating is exact: zero is nothing, a trapezoid adds `step` times the sum of its
/// two sides, and a product is the product.
#[verifier::opaque]
pub open spec fn heats_exactly<K: Heating>(
    k: K,
    dx: K::Real,
    worth: spec_fn(K::Real) -> real,
    step: real,
) -> bool {
    &&& forall|z: K::Real| #[trigger] call_ensures(K::zero, (&k,), z) ==> worth(z) == 0real
    &&& forall|c: K::Real, a: K::Real, b: K::Real, d: K::Real| #[trigger]
        call_ensures(K::trapezoid, (&k, c, a, b, dx), d) ==> worth(d) == worth(c) + step * (worth(a)
            + worth(b))
    &&& forall|a: K::Real, b: K::Real, c: K::Real| #[trigger]
        call_ensures(K::times, (&k, a, b), c) ==> worth(c) == worth(a) * worth(b)
}

/// The light of a row from its first sample to sample `i`, by trapezoids of which each
/// side counts `step`.
pub open spec fn light_upto<R>(
    worth: spec_fn(R) -> real,
    step: real,
    row: Seq<R>,
    i: int,
) -> real
    decreases i,
{
    if i <= 0 {
        0real
    } else {
        light_upto(worth, step, row, i - 1) + step * (worth(row[i - 1]) + worth(row[i]))
    }
}

proof fn lemma_integral_is_the_light<K: Heating>(
    k: K,
    m: Bloom<K::Real>,
    drop: K::Real,
    row: Seq<K::Real>,
    x: K::Real,
    dn: Seq<K::Real>,
    cums: Seq<K::Real>,
    tops: Seq<K::Real>,
    worth: spec_fn(K::Real) -> real,
    step: real,
    i: int,
)
    requires
        heats_exactly(k, m.dx, worth, step),
        is_heated_run(k, m, drop, row, x, dn, cums, tops),
        0 <= i < dn.len(),
    ensures
        worth(cums[i]) == light_upto(worth, step, row, i),
        worth(dn[i]) == worth(drop) * light_upto(worth, step, row, i),
    decreases i,
{
    reveal(heats_exactly);
    if i > 0 {
        lemma_integral_is_the_light(k, m, drop, row, x, dn, cums, tops, worth, step, i - 1);
        assert(is_heated_sample(k, m, drop, row, dn, cums, tops, i));
    } else {
        assert(worth(drop) * 0real == 0real) by (nonlinear_arith);
    }
}

/// The index perturbation is the light of the row, gathered from the upwind edge, times
/// the drop of the slab.
pub proof fn law_perturbation_is_the_gathered_light<K: Heating>(
    k: K,
    m: Bloom<K::Real>,
    dz: K::Real,
    intensity: Plane<K::Real>,
    dn: Plane<K::Real>,
    worth: spec_fn(K::Real) -> real,
    step: real,
    j: int,
    i: int,
)
    requires
        heats_exactly(k, m.dx, worth, step),
        is_response(k, m, intensity, dz, Ok(dn)),
        0 <= j < intensity@.len(),
        0 <= i < intensity.spec_width(),
    ensures
        exists|drop: K::Real| #[trigger]
            is_drop(k, m, dz, drop) && worth(dn@[j][i]) == worth(drop) * light_upto(
                worth,
                step,
                intensity@[j],
                i,
            ),
{
    let (drop, x, cums, tops) = lemma_row_of_response(k, m, intensity, dz, dn, j);
    lemma_integral_is_the_light(
        k,
        m,
        drop,
        intensity@[j],
        x,
        dn@[j],
        cums,
        tops,
        worth,
        step,
        i,
    );
}

proof fn lemma_dark_row_gathers_nothing<R>(
    worth: spec_fn(R) -> real,
    step: real,
    row: Seq<R>,
    i: int,
)
    requires
        forall|x: int| 0 <= x <= i ==> worth(#[trigger] row[x]) == 0real,
    ensures
        light_upto(worth, step, row, i) == 0real,
    decreases i,
{
    if i > 0 {
        lemma_dark_row_gathers_nothing(worth, step, row, i - 1);
        assert(worth(row[i - 1]) == 0real && worth(row[i]) == 0real);
        assert(step * (0real + 0real) == 0real) by (nonlinear_arith);
    }
}

/// A dark row is not perturbed, however bright its neighbours are.
pub proof fn law_dark_row_is_not_perturbed<K: Heating>(
    k: K,
    m: Bloom<K::Real>,
    dz: K::Real,
    intensity: Plane<K::Real>,
    dn: Plane<K::Real>,
    worth: spec_fn(K::Real) -> real,
    step: real,
    j: int,
)
    requires
        heats_exactly(k, m.dx, worth, step),
        is_response(k, m, intensity, dz, Ok(dn)),
        0 <= j < intensity@.len(),
        forall|x: int| 0 <= x < intensity.spec_width() ==> worth(#[trigger] intensity@[j][x])
            == 0real,
    ensures
        forall|i: int| 0 <= i < intensity.spec_width() ==> worth(#[trigger] dn@[j][i]) == 0real,
{
    assert forall|i: int| 0 <= i < intensity.spec_width() implies worth(#[trigger] dn@[j][i])
        == 0real by {
        law_perturbation_is_the_gathered_light(k, m, dz, intensity, dn, worth, step, j, i);
        let drop = choose|drop: K::Real| #[trigger]
            is_drop(k, m, dz, drop) && worth(dn@[j][i]) == worth(drop) * light_upto(
                worth,
                step,
                intensity@[j],
                i,
            );
        lemma_dark_row_gathers_nothing(worth, step, intensity@[j], i);
        assert(worth(drop) * 0real == 0real) by (nonlinear_arith);
    }
}

/// Rises are compared by their worth, and a rise that is below a small one is small.
#[verifier::opaque]
pub open spec fn judges_by<K: Heating>(k: K, t0: K::Real, worth: spec_fn(K::Real) -> real) -> bool {
    &&& forall|a: K::Real, b: K::Real, g: bool| #[trigger]
        call_ensures(K::exceeds, (&k, a, b), g) ==> g == (worth(a) > worth(b))
    &&& forall|a: K::Real, b: K::Real|
        #![trigger call_ensures(K::is_small, (&k, a, t0), true), call_ensures(K::is_small, (&k, b, t0), false)]
        call_ensures(K::is_small, (&k, a, t0), true) && call_ensures(K::is_small, (&k, b, t0), false)
            ==> worth(b) > worth(a)
    &&& forall|h: K::Real, s: K::Real, c: K::Real, a: K::Real, b: K::Real| #[trigger]
        call_ensures(K::rise, (&k, h, s, c), a) && #[trigger] call_ensures(K::rise, (&k, h, s, c), b)
            ==> a == b
}

/// The hottest rise only grows along a row.
proof fn lemma_top_grows<K: Heating>(
    k: K,
    m: Bloom<K::Real>,
    drop: K::Real,
    row: Seq<K::Real>,
    x: K::Real,
    dn: Seq<K::Real>,
    cums: Seq<K::Real>,
    tops: Seq<K::Real>,
    worth: spec_fn(K::Real) -> real,
    i: int,
    l: int,
)
    requires
        judges_by(k, m.t0, worth),
        is_heated_run(k, m, drop, row, x, dn, cums, tops),
        0 <= i <= l < dn.len(),
    ensures
        worth(tops[i]) <= worth(tops[l]),
    decreases l - i,
{
    if i < l {
        lemma_top_grows(k, m, drop, row, x, dn, cums, tops, worth, i, l - 1);
        assert(is_heated_sample(k, m, drop, row, dn, cums, tops, l));
        reveal(judges_by);
    }
}

/// Over the same light the hottest rise that starts lower ends no higher.
proof fn lemma_lower_start_ends_lower<K: Heating>(
    k: K,
    m: Bloom<K::Real>,
    drop: K::Real,
    row: Seq<K::Real>,
    x: K::Real,
    y: K::Real,
    dn: Seq<K::Real>,
    en: Seq<K::Real>,
    cums: Seq<K::Real>,
    sums: Seq<K::Real>,
    s: Seq<K::Real>,
    t: Seq<K::Real>,
    worth: spec_fn(K::Real) -> real,
    i: int,
)
    requires
        heats_reproducibly(k),
        judges_by(k, m.t0, worth),
        is_heated_run(k, m, drop, row, x, dn, cums, s),
        is_heated_run(k, m, drop, row, y, en, sums, t),
        worth(x) <= worth(y),
        0 <= i < dn.len(),
        i < en.len(),
    ensures
        worth(s[i]) <= worth(t[i]),
    decreases i,
{
    if i > 0 {
        lemma_lower_start_ends_lower(
            k,
            m,
            drop,
            row,
            x,
            y,
            dn,
            en,
            cums,
            sums,
            s,
            t,
            worth,
            i - 1,
        );
        lemma_integrals_are_one(k, m, drop, row, row, x, y, dn, en, cums, sums, s, t, i);
        assert(is_heated_sample(k, m, drop, row, dn, cums, s, i));
        assert(is_heated_sample(k, m, drop, row, en, sums, t, i));
        reveal(judges_by);
    }
}

/// The hottest rise only grows from row to row.
proof fn lemma_rows_grow<K: Heating>(
    k: K,
    m: Bloom<K::Real>,
    drop: K::Real,
    intensity: Plane<K::Real>,
    dn: Plane<K::Real>,
    tops: Seq<K::Real>,
    worth: spec_fn(K::Real) -> real,
    i: int,
    l: int,
)
    requires
        judges_by(k, m.t0, worth),
        intensity.wf(),
        is_heated(k, m, drop, intensity, dn, tops),
        intensity.spec_width() > 0,
        0 <= i <= l < tops.len(),
    ensures
        worth(tops[i]) <= worth(tops[l]),
    decreases l - i,
{
    if i < l {
        lemma_rows_grow(k, m, drop, intensity, dn, tops, worth, i, l - 1);
        assert(is_heated_at(k, m, drop, intensity@, dn@, tops, l - 1));
        let (row, line) = (intensity@[l - 1], dn@[l - 1]);
        let (cums, run) = choose|cums: Seq<K::Real>, run: Seq<K::Real>|
            {
                &&& #[trigger] is_heated_run(k, m, drop, row, tops[l - 1], line, cums, run)
                &&& line.len() == row.len()
                &&& run.last() == tops[l]
            };
        lemma_top_grows(
            k,
            m,
            drop,
            row,
            tops[l - 1],
            line,
            cums,
            run,
            worth,
            0,
            run.len() - 1,
        );
    }
}

/// A slab that is accepted has no row that is too hot: no row of it, as a slab of its
/// own, is refused.
pub proof fn law_accepted_slab_has_no_hot_row<K: Heating>(
    k: K,
    m: Bloom<K::Real>,
    dz: K::Real,
    intensity: Plane<K::Real>,
    dn: Plane<K::Real>,
    alone: Plane<K::Real>,
    worth: spec_fn(K::Real) -> real,
    j: int,
)
    requires
        heats_reproducibly(k),
        judges_by(k, m.t0, worth),
        is_response(k, m, intensity, dz, Ok(dn)),
        0 <= j < intensity@.len(),
        intensity.spec_width() > 0,
        alone@ == seq![intensity@[j]],
        alone.spec_width() == intensity.spec_width(),
    ensures
        !is_response(k, m, alone, dz, Err(BloomingRefusal::TooHot)),
{
    if is_response(k, m, alone, dz, Err(BloomingRefusal::TooHot)) {
        let (drop, tops) = choose|drop: K::Real, tops: Seq<K::Real>|
            {
                &&& is_drop(k, m, dz, drop)
                &&& #[trigger] is_heated(k, m, drop, intensity, dn, tops)
                &&& call_ensures(K::is_small, (&k, tops.last(), m.t0), true)
            };
        let en = choose|en: Plane<K::Real>| #[trigger] is_slab_heated(k, m, alone, dz, en, false);
        let (fall, ends) = choose|fall: K::Real, ends: Seq<K::Real>|
            {
                &&& is_drop(k, m, dz, fall)
                &&& #[trigger] is_heated(k, m, fall, alone, en, ends)
                &&& call_ensures(K::is_small, (&k, ends.last(), m.t0), false)
            };
        assert(drop == fall && ends[0] == tops[0]) by {
            reveal(heats_reproducibly);
        }
        lemma_rows_grow(k, m, drop, intensity, dn, tops, worth, 0, j);
        lemma_rows_grow(k, m, drop, intensity, dn, tops, worth, j + 1, tops.len() - 1);
        assert(is_heated_at(k, m, drop, intensity@, dn@, tops, j));
        assert(is_heated_at(k, m, drop, alone@, en@, ends, 0));
        let row = intensity@[j];
        assert(alone@[0] == row);
        let (sums, t) = choose|cums: Seq<K::Real>, run: Seq<K::Real>|
            {
                &&& #[trigger] is_heated_run(k, m, drop, row, tops[j], dn@[j], cums, run)
                &&& dn@[j].len() == row.len()
                &&& run.last() == tops[j + 1]
            };
        let (cums, s) = choose|cums: Seq<K::Real>, run: Seq<K::Real>|
            {
                &&& #[trigger] is_heated_run(k, m, drop, row, ends[0], en@[0], cums, run)
                &&& en@[0].len() == row.len()
                &&& run.last() == ends[1]
            };
        lemma_lower_start_ends_lower(
            k,
            m,
            drop,
            row,
            ends[0],
            tops[j],
            en@[0],
            dn@[j],
            cums,
            sums,
            s,
            t,
            worth,
            row.len() - 1,
        );
        assert(worth(ends.last()) <= worth(tops.last()));
        reveal(judges_by);
    }
}

/// A slab without light is never refused as too hot.
pub proof fn law_dark_slab_is_not_too_hot<K: Heating>(
    k: K,
    m: Bloom<K::Real>,
    dz: K::Real,
    intensity: Plane<K::Real>,
    worth: spec_fn(K::Real) -> real,
    step: real,
)
    requires
        heats_exactly(k, m.dx, worth, step),
        forall|c: K::Real, a: K::Real| #[trigger]
            call_ensures(K::rise, (&k, m.heat_coeff, m.scale, c), a) && worth(c) == 0real ==> worth(a)
                == 0real,
        forall|a: K::Real| #[trigger]
            call_ensures(K::is_small, (&k, a, m.t0), false) ==> worth(a) != 0real,
        forall|j: int, x: int|
            0 <= j < intensity@.len() && 0 <= x < intensity.spec_width() ==> worth(
                #[trigger] intensity@[j][x],
            ) == 0real,
    ensures
        !is_response(k, m, intensity, dz, Err(BloomingRefusal::TooHot)),
{
    if is_response(k, m, intensity, dz, Err(BloomingRefusal::TooHot)) {
        let dn = choose|dn: Plane<K::Real>| #[trigger]
            is_slab_heated(k, m, intensity, dz, dn, false);
        let (drop, tops) = choose|drop: K::Real, tops: Seq<K::Real>|
            {
                &&& is_drop(k, m, dz, drop)
                &&& #[trigger] is_heated(k, m, drop, intensity, dn, tops)
                &&& call_ensures(K::is_small, (&k, tops.last(), m.t0), false)
            };
        assert(worth(tops[0]) == 0real) by {
            reveal(heats_exactly);
        }
        if intensity.spec_width() > 0 {
            lemma_dark_rows_stay_cold(
                k,
                m,
                drop,
                intensity,
                dn,
                tops,
                worth,
                step,
                tops.len() - 1,
            );
        }
    }
}

proof fn lemma_dark_rows_stay_cold<K: Heating>(
    k: K,
    m: Bloom<K::Real>,
    drop: K::Real,
    intensity: Plane<K::Real>,
    dn: Plane<K::Real>,
    tops: Seq<K::Real>,
    worth: spec_fn(K::Real) -> real,
    step: real,
    j: int,
)
    requires
        heats_exactly(k, m.dx, worth, step),
        forall|c: K::Real, a: K::Real| #[trigger]
            call_ensures(K::rise, (&k, m.heat_coeff, m.scale, c), a) && worth(c) == 0real ==> worth(a)
                == 0real,
        intensity.wf(),
        is_heated(k, m, drop, intensity, dn, tops),
        intensity.spec_width() > 0,
        forall|j: int, x: int|
            0 <= j < intensity@.len() && 0 <= x < intensity.spec_width() ==> worth(
                #[trigger] intensity@[j][x],
            ) == 0real,
        0 <= j < tops.len(),
    ensures
        worth(tops[j]) == 0real,
    decreases j,
{
    reveal(heats_exactly);
    if j > 0 {
        lemma_dark_rows_stay_cold(k, m, drop, intensity, dn, tops, worth, step, j - 1);
        assert(is_heated_at(k, m, drop, intensity@, dn@, tops, j - 1));
        let (row, line) = (intensity@[j - 1], dn@[j - 1]);
        let (cums, run) = choose|cums: Seq<K::Real>, run: Seq<K::Real>|
            {
                &&& #[trigger] is_heated_run(k, m, drop, row, tops[j - 1], line, cums, run)
                &&& line.len() == row.len()
                &&& run.last() == tops[j]
            };
        lemma_dark_run_stays_cold(
            k,
            m,
            drop,
            row,
            tops[j - 1],
            line,
            cums,
            run,
            worth,
            step,
            run.len() - 1,
        );
    }
}

proof fn lemma_dark_run_stays_cold<K: Heating>(
    k: K,
    m: Bloom<K::Real>,
    drop: K::Real,
    row: Seq<K::Real>,
    x: K::Real,
    dn: Seq<K::Real>,
    cums: Seq<K::Real>,
    tops: Seq<K::Real>,
    worth: spec_fn(K::Real) -> real,
    step: real,
    i: int,
)
    requires
        heats_exactly(k, m.dx, worth, step),
        forall|c: K::Real, a: K::Real| #[trigger]
            call_ensures(K::rise, (&k, m.heat_coeff, m.scale, c), a) && worth(c) == 0real ==> worth(a)
                == 0real,
        is_heated_run(k, m, drop, row, x, dn, cums, tops),
        forall|l: int| 0 <= l < row.len() ==> worth(#[trigger] row[l]) == 0real,
        worth(x) == 0real,
        0 <= i < dn.len(),
    ensures
        worth(tops[i]) == 0real,
    decreases i,
{
    if i > 0 {
        lemma_dark_run_stays_cold(k, m, drop, row, x, dn, cums, tops, worth, step, i - 1);
        lemma_integral_is_the_light(k, m, drop, row, x, dn, cums, tops, worth, step, i);
        lemma_dark_row_gathers_nothing(worth, step, row, i);
        assert(is_heated_sample(k, m, drop, row, dn, cums, tops, i));
    }
}

/// A blooming medium scales the launched field to the power of the beam, and heats and
/// refracts as the air, the wind and the temperature that it was built with say.
pub proof fn law_medium_carries_the_beam_power<K: Heating>(
    k: K,
    grid: Grid<K::Real>,
    air: AirProperties<K::Real>,
    alpha: K::Real,
    wind: K::Real,
    beam_power: K::Real,
    field_power: K::Real,
    width: K::Real,
    t0: K::Real,
    m: ThermalBlooming<K::Real>,
    worth: spec_fn(K::Real) -> real,
)
    requires
        is_blooming(k, grid, air, alpha, wind, beam_power, field_power, width, t0, Ok(m)),
        forall|a: K::Real, b: K::Real, c: K::Real| #[trigger]
            call_ensures(K::ratio, (&k, a, b), c) && worth(b) != 0real ==> worth(c) * worth(b)
                == worth(a),
        forall|h: K::Real| #[trigger]
            call_ensures(K::heat_coefficient, (&k, alpha, air, wind), h) ==> worth(h) * (worth(
                air.rho,
            ) * worth(air.cp) * worth(wind)) == worth(alpha),
        worth(field_power) != 0real,
        worth(t0) != 0real,
    ensures
        worth(m@.scale) * worth(field_power) == worth(beam_power),
        worth(m@.heat_coeff) * (worth(air.rho) * worth(air.cp) * worth(wind)) == worth(alpha),
        worth(m@.index_coeff) * worth(t0) == worth(air.n_minus_1),
        m@.alpha == alpha,
        m@.t0 == t0,
        (m@.n, m@.dx) == (grid.n, grid.dx),
{
}

/// The index of a blooming medium falls with its temperature as that of a gas: its change
/// per degree, times the temperature of the air, is the refractivity of the air.
pub proof fn law_index_falls_by_the_refractivity<K: Heating>(
    k: K,
    grid: Grid<K::Real>,
    air: AirProperties<K::Real>,
    alpha: K::Real,
    wind: K::Real,
    beam_power: K::Real,
    field_power: K::Real,
    width: K::Real,
    t0: K::Real,
    m: ThermalBlooming<K::Real>,
    worth: spec_fn(K::Real) -> real,
)
    requires
        is_blooming(k, grid, air, alpha, wind, beam_power, field_power, width, t0, Ok(m)),
        forall|a: K::Real, b: K::Real, c: K::Real| #[trigger]
            call_ensures(K::ratio, (&k, a, b), c) && worth(b) != 0real ==> worth(c) * worth(b)
                == worth(a),
        worth(t0) != 0real,
        worth(field_power) != 0real,
    ensures
        worth(m@.index_coeff) * worth(t0) == worth(air.n_minus_1),
        worth(m@.scale) * worth(field_power) == worth(beam_power),
        (m@.t0, m@.alpha, m@.n, m@.dx) == (t0, alpha, grid.n, grid.dx),
{
}

} // verus!

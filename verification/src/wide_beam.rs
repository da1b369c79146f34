//! The planar limit of a coupled column.
//!
//! A beam that is as strong on every ring, in planar geometry, drives every ring of a
//! slab as it would drive one column: the slab follows the column, cell by cell and
//! step by step.
use crate::column_replay::{
    flows_alike, is_repeatable_column, lemma_absorbed_is_one, lemma_absorption_is_one,
};
use crate::euler1d::{
    all_physical, is_heated, weighs_reproducibly, Boundary, Conserved, Domain1d, Primitive,
    Scheme1d,
};
use crate::euler2d::{
    all_cells, are_mapped, first_bad, heated, is_rejected, is_step_outcome, is_warmed, Boundary2d,
    Domain2d, Euler2dError, Geometry, Primitive2d,
};
use crate::lsd::{
    alphas, is_absorbed, is_absorption, is_alpha_profile, is_alpha_run, is_coefficient, is_march,
    is_profile, with_record, Column1d, LsdError, Record,
};
use crate::lsd2d::{
    are_alphas, are_deposits, is_advance, is_advance_staged, is_alpha_refusal, is_banking,
    is_cell_alpha, is_cell_line, is_deposit, is_deposited, is_pencil, is_ring_alpha,
    is_ring_deposit, is_ring_refusal, is_start, listed, Beam2d, BeamProfile, Column2d, Lsd2dError,
};
use crate::planar::{
    counts_alike, has_equal_rings, has_flat_rings, image_of, is_deterministic, is_level,
    law_slab_follows_the_line, twins,
};
use crate::reconstruct::aligned;
use crate::riemann::Acoustics;
use vstd::prelude::*;

verus! {

/// The beam is as strong on every ring as it is at all.
pub open spec fn is_wide<K: Beam2d>(c: Column2d<K>) -> bool {
    forall|j: int, s: K::Real|
        0 <= j < c.hydro.cells.len() && #[trigger] is_start(c, j, s) ==> s == c.incident
}

/// A top hat that every ring is within is wide, where its share is taken as it is.
pub proof fn law_top_hat_over_every_ring_is_wide<K: Beam2d>(c: Column2d<K>, radius: K::Real)
    requires
        c.beam == (BeamProfile::TopHat { radius }),
        forall|j: int, r: K::Real|
            0 <= j < c.hydro.cells.len() && #[trigger] call_ensures(
                K::r_centre,
                (&c.hydro.scheme, j as usize),
                r,
            ) ==> !call_ensures(K::is_within, (&c.hydro.scheme, r, radius), false),
        forall|one: K::Real, s: K::Real|
            #![trigger call_ensures(K::times, (&c.hydro.scheme, c.incident, one), s)]
            call_ensures(K::one, (&c.hydro.scheme,), one) && call_ensures(
                K::times,
                (&c.hydro.scheme, c.incident, one),
                s,
            ) ==> s == c.incident,
    ensures
        is_wide(c),
{
}

/// The two arithmetics agree on what couples a beam to a gas: on half a step, on what
/// an absorption model sees of a cell, and on what a source does to it.
pub open spec fn couples_alike<K: Beam2d>(scheme: K, line: K::Line, nothing: K::Real) -> bool {
    &&& forall|dt: K::Real, x: K::Real, y: K::Real|
        #![trigger call_ensures(K::half, (&scheme, dt), x), call_ensures(<K::Line as Acoustics>::half, (&line, dt), y)]
        call_ensures(K::half, (&scheme, dt), x) && call_ensures(<K::Line as Acoustics>::half, (&line, dt), y)
            ==> x == y
    &&& forall|
        u: Conserved<K::Real>,
        w: Primitive2d<K::Real>,
        l: Primitive<K::Real>,
        m: Primitive<K::Real>,
    |
        #![trigger call_ensures(K::to_primitive, (&scheme, aligned(nothing, u)), w), call_ensures(K::as_1d, (&scheme, w), l), call_ensures(<K::Line as Scheme1d>::to_primitive, (&line, u), m)]
        call_ensures(K::to_primitive, (&scheme, aligned(nothing, u)), w) && call_ensures(
            K::as_1d,
            (&scheme, w),
            l,
        ) && call_ensures(<K::Line as Scheme1d>::to_primitive, (&line, u), m) ==> l == m
    &&& forall|dt: K::Real, e: K::Real, rate: K::Real, x: K::Real, y: K::Real|
        #![trigger call_ensures(K::heat, (&scheme, dt, e, rate), x), call_ensures(<K::Line as Scheme1d>::heat, (&line, dt, e, rate), y)]
        call_ensures(K::heat, (&scheme, dt, e, rate), x) && call_ensures(
            <K::Line as Scheme1d>::heat,
            (&line, dt, e, rate),
            y,
        ) ==> x == y
    &&& forall|dt: K::Real| #[trigger]
        call_ensures(<K::Line as Scheme1d>::is_source_interval, (&line, dt), true) ==> !call_ensures(
            K::is_source_interval,
            (&scheme, dt),
            false,
        )
    &&& forall|u: Conserved<K::Real>| #[trigger]
        call_ensures(<K::Line as Scheme1d>::is_physical, (&line, u), true) ==> !call_ensures(
            K::is_physical,
            (&scheme, aligned(nothing, u)),
            false,
        )
}

/// Every ring of a slab under a wide beam is the image of a column.
pub open spec fn is_image<K: Beam2d>(c: Column2d<K>, line: Column1d<K::Line>, nothing: K::Real) -> bool {
    &&& line.hydro.scheme == c.line
    &&& line.absorption == c.absorption
    &&& line.incident == c.incident
    &&& has_equal_rings(c.hydro, line.hydro.cells, nothing)
    &&& is_wide(c)
}

/// Every cell of a domain is in one of its rings.
proof fn lemma_cell_is_in_a_ring<S>(rows: Seq<Seq<S>>, k: int) -> (p: (int, int))
    requires
        0 <= k < all_cells(rows).len(),
    ensures
        0 <= p.0 < rows.len(),
        0 <= p.1 < rows[p.0].len(),
        all_cells(rows)[k] == rows[p.0][p.1],
    decreases rows.len(),
{
    let head = all_cells(rows.drop_last());
    if k < head.len() {
        let p = lemma_cell_is_in_a_ring(rows.drop_last(), k);
        assert(rows.drop_last()[p.0] == rows[p.0]);
        p
    } else {
        (rows.len() - 1, k - head.len())
    }
}

/// What an absorption model sees of a cell of the slab is what it sees of the cell of
/// the column.
proof fn lemma_cell_line_follows<K: Beam2d>(
    c: Column2d<K>,
    line: Column1d<K::Line>,
    nothing: K::Real,
    j: int,
    i: int,
    l: Primitive<K::Real>,
    m: Primitive<K::Real>,
)
    requires
        is_image(c, line, nothing),
        couples_alike(c.hydro.scheme, c.line, nothing),
        0 <= j < c.hydro.cells.len(),
        0 <= i < c.hydro.n_x,
        is_cell_line(c, j, i, l),
        call_ensures(<K::Line as Scheme1d>::to_primitive, (&c.line, line.hydro.cells[i]), m),
    ensures
        l == m,
{
    assert(c.hydro.cells[j] == image_of(nothing, line.hydro.cells));
    assert(c.hydro.cells[j][i] == aligned(nothing, line.hydro.cells[i]));
}

/// No cell of the slab is refused an absorption that the cell of the column has.
proof fn lemma_no_refusal<K: Beam2d>(
    c: Column2d<K>,
    line: Column1d<K::Line>,
    nothing: K::Real,
    states: Seq<Primitive<K::Real>>,
    samples: Seq<(K::Real, Option<K::Real>)>,
    records: Seq<Record<K::Real>>,
    e: LsdError<K::Real>,
)
    requires
        is_image(c, line, nothing),
        couples_alike(c.hydro.scheme, c.line, nothing),
        is_repeatable_column(c.line),
        is_alpha_run(line, states, samples, records),
        samples.len() == states.len(),
    ensures
        !is_alpha_refusal(c, e),
{
    if is_alpha_refusal(c, e) {
        let (j, i) = choose|j: int, i: int|
            0 <= j < c.hydro.cells.len() && #[trigger] is_ring_refusal(c, j, i, e);
        let l = choose|l: Primitive<K::Real>| #[trigger]
            is_cell_line(c, j, i, l) && is_absorption(c.line, c.absorption, l, Err(e));
        assert(samples[i] == samples[i]);
        assert(states[i] == states[i]);
        lemma_cell_line_follows(c, line, nothing, j, i, l, states[i]);
        lemma_absorption_is_one(
            c.line,
            c.absorption,
            c.absorption,
            l,
            Err(e),
            Ok(samples[i]),
        );
    }
}

/// A ring absorbs what the column absorbs.
proof fn lemma_ring_absorbs_alike<K: Beam2d>(
    c: Column2d<K>,
    line: Column1d<K::Line>,
    nothing: K::Real,
    states: Seq<Primitive<K::Real>>,
    samples: Seq<(K::Real, Option<K::Real>)>,
    records: Seq<Record<K::Real>>,
    j: int,
    alpha: Seq<K::Real>,
)
    requires
        is_image(c, line, nothing),
        couples_alike(c.hydro.scheme, c.line, nothing),
        is_repeatable_column(c.line),
        is_alpha_run(line, states, samples, records),
        samples.len() == states.len(),
        0 <= j < c.hydro.cells.len(),
        is_ring_alpha(c, j, alpha),
    ensures
        alpha == alphas(samples),
{
    assert forall|i: int| 0 <= i < alpha.len() implies alpha[i] == samples[i].0 by {
        assert(is_cell_alpha(c, j, i, alpha[i]));
        let l = choose|l: Primitive<K::Real>| #[trigger]
            is_cell_line(c, j, i, l) && is_coefficient(
                c.line,
                c.absorption,
                l,
                alpha[i],
            );
        let t = choose|t: Option<K::Real>| #[trigger]
            is_absorption(c.line, c.absorption, l, Ok((alpha[i], t)));
        assert(states[i] == states[i]);
        lemma_cell_line_follows(c, line, nothing, j, i, l, states[i]);
        lemma_absorption_is_one(
            c.line,
            c.absorption,
            c.absorption,
            l,
            Ok((alpha[i], t)),
            Ok(samples[i]),
        );
    }
    assert(alpha =~= alphas(samples));
}

/// What is deposited into a ring is what is deposited into the column.
proof fn lemma_ring_is_heated_alike<K: Beam2d>(
    c: Column2d<K>,
    line: Column1d<K::Line>,
    nothing: K::Real,
    states: Seq<Primitive<K::Real>>,
    samples: Seq<(K::Real, Option<K::Real>)>,
    records: Seq<Record<K::Real>>,
    profile: Seq<K::Real>,
    q: Seq<K::Real>,
    d: Seq<Seq<K::Real>>,
    j: int,
)
    requires
        is_image(c, line, nothing),
        couples_alike(c.hydro.scheme, c.line, nothing),
        is_repeatable_column(c.line),
        is_alpha_run(line, states, samples, records),
        samples.len() == states.len(),
        is_march(c.line, c.incident, alphas(samples), profile),
        is_absorbed(c.line, profile, q),
        is_deposited(c, d),
        0 <= j < c.hydro.cells.len(),
    ensures
        d.len() == c.hydro.cells.len(),
        d[j] == q,
{
    let alpha = choose|alpha: Seq<Seq<K::Real>>| #[trigger]
        are_alphas(c, alpha) && are_deposits(c, alpha, d);
    assert(is_ring_alpha(c, j, alpha[j]));
    lemma_ring_absorbs_alike(c, line, nothing, states, samples, records, j, alpha[j]);
    assert(is_ring_deposit(c, j, alpha[j], d[j]));
    let own = choose|own: Seq<K::Real>| #[trigger]
        is_pencil(c, j, alpha[j], own) && is_absorbed(c.line, own, d[j]);
    let s = choose|s: K::Real| #[trigger] is_start(c, j, s) && is_march(c.line, s, alpha[j], own);
    lemma_absorbed_is_one(c.line, s, alpha[j], own, profile, d[j], q);
}

/// A deposition into the slab follows the deposition into the column.
proof fn lemma_deposit_follows<K: Beam2d>(
    c: Column2d<K>,
    dt: K::Real,
    post: Column2d<K>,
    r: Result<(), Lsd2dError<K::Real>>,
    line: Column1d<K::Line>,
    after: Column1d<K::Line>,
    nothing: K::Real,
)
    requires
        is_image(c, line, nothing),
        couples_alike(c.hydro.scheme, c.line, nothing),
        is_repeatable_column(c.line),
        is_deposit(c, dt, post, r),
        crate::lsd::is_deposit(line, dt, after, Ok(())),
    ensures
        r is Ok,
        is_image(post, after, nothing),
        post.hydro == (Domain2d { cells: post.hydro.cells, ..c.hydro }),
        post.hydro.cells.len() == c.hydro.cells.len(),
        after.hydro == (Domain1d { cells: after.hydro.cells, ..line.hydro }),
        all_physical(line.hydro.scheme, after.hydro.cells),
{
    let k = c.line;
    let (mid, q) = choose|mid: Column1d<K::Line>, q: Seq<K::Real>| #[trigger]
        crate::lsd::is_deposited(line, mid, q) && #[trigger] crate::lsd::is_banking(
            mid,
            dt,
            q,
            after,
            Ok(()),
        );
    let profile = choose|profile: Seq<K::Real>| #[trigger]
        is_absorbed(k, profile, q) && is_profile(line, mid, profile);
    let alpha = choose|alpha: Seq<K::Real>| #[trigger]
        is_march(k, line.incident, alpha, profile) && is_alpha_profile(
            line,
            mid,
            Ok(alpha),
        );
    let (states, samples, records) = choose|
        states: Seq<Primitive<K::Real>>,
        samples: Seq<(K::Real, Option<K::Real>)>,
        records: Seq<Record<K::Real>>,
    |
        {
            &&& #[trigger] is_alpha_run(line, states, samples, records)
            &&& mid == with_record(line, records.last())
            &&& samples.len() == states.len() && alpha == alphas(samples)
        };
    if let Err(Lsd2dError::Absorption(e)) = r {
        lemma_no_refusal(c, line, nothing, states, samples, records, e);
    }
    let d = choose|d: Seq<Seq<K::Real>>| #[trigger]
        is_deposited(c, d) && is_banking(c, dt, d, post, r);
    assert forall|j: int| 0 <= j < c.hydro.cells.len() implies #[trigger] d[j] == q by {
        lemma_ring_is_heated_alike(
            c,
            line,
            nothing,
            states,
            samples,
            records,
            profile,
            q,
            d,
            j,
        );
    }
    let scheme = c.hydro.scheme;
    let cells = c.hydro.cells;
    assert(!call_ensures(K::is_source_interval, (&scheme, dt), false));
    let warm = heated(scheme, dt, listed(d));
    assert(are_mapped::<K>(cells, warm, post.hydro.cells));
    assert forall|j: int| 0 <= j < cells.len() implies #[trigger] post.hydro.cells[j] == image_of(
        nothing,
        after.hydro.cells,
    ) by {
        assert(cells[j] == image_of(nothing, line.hydro.cells));
        assert(d[j] == q);
        assert forall|i: int| 0 <= i < c.hydro.n_x implies post.hydro.cells[j][i] == aligned(
            nothing,
            after.hydro.cells[i],
        ) by {
            assert(warm(j, i, cells[j][i], post.hydro.cells[j][i]));
            assert(is_warmed(scheme, dt, cells[j][i], q[i], post.hydro.cells[j][i]));
            assert(is_heated(
                k,
                dt,
                crate::lsd::listed(q),
                i,
                line.hydro.cells[i],
                after.hydro.cells[i],
            ));
        }
        assert(post.hydro.cells[j] =~= image_of(nothing, after.hydro.cells));
    }
    if r is Err {
        let bad = choose|bad: int| #[trigger] first_bad(scheme, all_cells(post.hydro.cells), bad);
        let p = lemma_cell_is_in_a_ring(post.hydro.cells, bad);
        assert(post.hydro.cells[p.0] == image_of(nothing, after.hydro.cells));
        assert(call_ensures(<K::Line as Scheme1d>::is_physical, (&k, after.hydro.cells[p.1]), true));
    }
    assert(is_wide(post)) by {
        assert forall|j: int, s: K::Real|
            0 <= j < post.hydro.cells.len() && #[trigger] is_start(post, j, s) implies s
            == post.incident by {
            assert(is_start(c, j, s));
        }
    }
}

/// The planar limit of a coupled step. Where the coupled step of a column with open
/// ends succeeds, so does the coupled step of a slab whose rings are all the image of
/// that column, under a beam that is as strong on every ring, if the slab admits its
/// length: every ring ends as the image of the column, and the clock and the count of
/// steps advance alike.
pub proof fn law_wide_beam_is_the_column<K: Beam2d>(
    pre: Column2d<K>,
    dt: K::Real,
    post: Column2d<K>,
    r: Result<(), Lsd2dError<K::Real>>,
    line: Column1d<K::Line>,
    after: Column1d<K::Line>,
    nothing: K::Real,
)
    requires
        pre.hydro.valid(),
        pre.hydro.geometry == Geometry::Planar,
        pre.hydro.bc_x_min == Boundary2d::Transmissive,
        pre.hydro.bc_x_max == Boundary2d::Transmissive,
        has_flat_rings(pre.hydro),
        is_advance(pre, dt, post, r),
        forall|half: K::Real, a: Column2d<K>, e: Euler2dError|
            #![trigger is_deposit(pre, half, a, Ok(())), is_rejected(a.hydro, dt, e)]
            is_deposit(pre, half, a, Ok(())) && call_ensures(
                K::half,
                (&pre.hydro.scheme, dt),
                half,
            ) ==> !is_rejected(a.hydro, dt, e),
        crate::lsd::is_advance(line, dt, after, Ok(())),
        line.hydro.boundary == Boundary::Transmissive,
        (line.hydro.time, line.hydro.steps) == (pre.hydro.time, pre.hydro.steps),
        is_image(pre, line, nothing),
        is_repeatable_column(pre.line),
        couples_alike(pre.hydro.scheme, pre.line, nothing),
        is_deterministic(pre.hydro.scheme),
        is_level(pre.hydro.scheme, nothing),
        twins(pre.hydro.scheme, pre.line, dt, nothing),
        counts_alike::<K, K::Line>(pre.hydro.scheme, pre.line, dt, nothing),
    ensures
        r is Ok,
        is_image(post, after, nothing),
        post.hydro.cells.len() == pre.hydro.cells.len(),
        (post.hydro.time, post.hydro.steps) == (after.hydro.time, after.hydro.steps),
{
    let (h, x, y) = choose|half: K::Real, a: Column1d<K::Line>, b: Column1d<K::Line>| #[trigger]
        crate::lsd::is_advance_staged(line, dt, half, a, b, after, Ok(()));
    let (half, a, b) = choose|half: K::Real, a: Column2d<K>, b: Column2d<K>| #[trigger]
        is_advance_staged(pre, dt, half, a, b, post, r);
    assert(h == half);
    if r is Err && is_deposit(pre, half, post, r) {
        lemma_deposit_follows(pre, half, post, r, line, x, nothing);
    }
    assert(is_deposit(pre, half, a, Ok(())));
    lemma_deposit_follows(pre, half, a, Ok(()), line, x, nothing);
    assert(crate::euler1d::is_deterministic(pre.line, dt) && weighs_reproducibly(pre.line, dt)) by {
        reveal(flows_alike);
    }
    assert(a.hydro.valid()) by {
        assert forall|j: int| 0 <= j < a.hydro.cells.len() implies #[trigger] a.hydro.cells[j].len()
            == a.hydro.n_x by {
            assert(a.hydro.cells[j] == image_of(nothing, x.hydro.cells));
        }
    }
    assert(has_flat_rings(a.hydro));
    if r is Err {
        let e = r->Err_0;
        if e is Hydro && is_step_outcome(a.hydro, dt, true, true, post.hydro, Err(e->Hydro_0)) {
            law_slab_follows_the_line(
                a.hydro,
                dt,
                post.hydro,
                Err(e->Hydro_0),
                x.hydro,
                y.hydro,
                nothing,
            );
        }
    }
    law_slab_follows_the_line(a.hydro, dt, b.hydro, Ok(()), x.hydro, y.hydro, nothing);
    assert(is_image(b, y, nothing)) by {
        assert forall|j: int, s: K::Real|
            0 <= j < b.hydro.cells.len() && #[trigger] is_start(b, j, s) implies s
            == b.incident by {
            assert(is_start(a, j, s));
        }
    }
    lemma_deposit_follows(b, half, post, r, y, after, nothing);
}

} // verus!

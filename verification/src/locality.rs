//! What a part of a domain depends on.
//!
//! A ring of a coupled column is heated by its own pencil through its own gas, and by no
//! other ring. A stable step suits every cell of a domain, not only some. A phase is
//! sampled well enough only where every pair of neighbours in a row is.
use crate::column_replay::{is_repeatable_column, lemma_absorbed_is_one, lemma_absorption_is_one};
use crate::euler1d::{
    are_cell_faces, ghosted, is_advanced, is_cell_update, is_deterministic, is_heated,
    is_larger_speed, is_max_speed, is_speed_run, is_stable_dt, is_step, is_update, is_warmed,
    lemma_advance_is_one, lemma_cell_faces_are_one, weighs_reproducibly, Conserved, Domain1d,
    Primitive, Scheme1d,
};
use crate::euler2d::{
    all_cells, are_max_speeds, is_faster, is_mapping, pushed, Conserved2d, Domain2d, Primitive2d,
    Scheme2d, Stage2d,
};
use crate::lsd::{
    are_states, is_absorbed, is_absorption, is_coefficient, is_front_in, is_march, is_undisturbed,
    Beam1d, Column1d,
};
use crate::lsd2d::{
    are_alphas, are_deposits, is_boundary_quiet, is_cell_alpha, is_cell_disturbed, is_cell_line,
    is_deposited, is_front_at, is_lag, is_pencil, is_ring_alpha, is_ring_deposit, is_ring_line,
    is_start, is_weight, Beam2d, BeamProfile, Column2d,
};
use crate::lsd_replay::lemma_front_is_one;
use crate::optics::Optics;
use crate::plane::{flat, is_fold, is_fold_run, lemma_flat_bound, lemma_flat_unflat, Plane};
use crate::propagate::{is_phase_check, raises_jump};
use crate::riemann::{is_hllc, lemma_hllc_is_one};
use vstd::prelude::*;

verus! {

/// The two-dimensional side of a coupled column is a function of its arguments.
#[verifier::opaque]
pub open spec fn couples_reproducibly<K: Beam2d>(k: K) -> bool {
    &&& forall|u: Conserved2d<K::Real>, a: Primitive2d<K::Real>, b: Primitive2d<
        K::Real,
    >|
        #![trigger call_ensures(K::to_primitive, (&k, u), a), call_ensures(K::to_primitive, (&k, u), b)]
        call_ensures(K::to_primitive, (&k, u), a) && call_ensures(K::to_primitive, (&k, u), b) ==> a
            == b
    &&& forall|w: Primitive2d<K::Real>, a: Primitive<K::Real>, b: Primitive<K::Real>|
        #![trigger call_ensures(K::as_1d, (&k, w), a), call_ensures(K::as_1d, (&k, w), b)]
        call_ensures(K::as_1d, (&k, w), a) && call_ensures(K::as_1d, (&k, w), b) ==> a == b
    &&& forall|j: usize, a: K::Real, b: K::Real|
        #![trigger call_ensures(K::r_centre, (&k, j), a), call_ensures(K::r_centre, (&k, j), b)]
        call_ensures(K::r_centre, (&k, j), a) && call_ensures(K::r_centre, (&k, j), b) ==> a == b
    &&& forall|x: K::Real, y: K::Real, a: K::Real, b: K::Real|
        #![trigger call_ensures(K::times, (&k, x, y), a), call_ensures(K::times, (&k, x, y), b)]
        call_ensures(K::times, (&k, x, y), a) && call_ensures(K::times, (&k, x, y), b) ==> a == b
    &&& forall|
        beam: BeamProfile<K::Real>,
        r: K::Real,
        a: K::Real,
        b: K::Real,
    |
        #![trigger is_weight(k, beam, r, a), is_weight(k, beam, r, b)]
        is_weight(k, beam, r, a) && is_weight(k, beam, r, b) ==> a == b
}

/// A ring is heated through its own gas by its own share of the beam: where two columns
/// under one beam agree in a ring, what is deposited in that ring is the same, whatever
/// the other rings hold.
pub proof fn law_ring_is_heated_through_its_own_gas<K: Beam2d>(
    c: Column2d<K>,
    d: Column2d<K>,
    q: Seq<Seq<K::Real>>,
    r: Seq<Seq<K::Real>>,
    j: int,
)
    requires
        is_repeatable_column(c.line),
        couples_reproducibly(c.hydro.scheme),
        (d.hydro.scheme, d.line, d.absorption, d.incident, d.beam, d.hydro.n_x) == (
            c.hydro.scheme,
            c.line,
            c.absorption,
            c.incident,
            c.beam,
            c.hydro.n_x,
        ),
        is_deposited(c, q),
        is_deposited(d, r),
        0 <= j < c.hydro.cells.len(),
        j < d.hydro.cells.len(),
        c.hydro.cells[j] == d.hydro.cells[j],
    ensures
        q[j] == r[j],
{
    let k = c.line;
    let a = choose|alpha: Seq<Seq<K::Real>>| #[trigger]
        are_alphas(c, alpha) && are_deposits(c, alpha, q);
    let b = choose|alpha: Seq<Seq<K::Real>>| #[trigger]
        are_alphas(d, alpha) && are_deposits(d, alpha, r);
    assert(is_ring_alpha(c, j, a[j]) && is_ring_alpha(d, j, b[j]));
    assert forall|i: int| 0 <= i < a[j].len() implies a[j][i] == b[j][i] by {
        assert(is_cell_alpha(c, j, i, a[j][i]) && is_cell_alpha(d, j, i, b[j][i]));
        let l = choose|l: Primitive<K::Real>| #[trigger]
            is_cell_line(c, j, i, l) && is_coefficient(k, c.absorption, l, a[j][i]);
        let m = choose|l: Primitive<K::Real>| #[trigger]
            is_cell_line(d, j, i, l) && is_coefficient(k, d.absorption, l, b[j][i]);
        assert(l == m) by {
            reveal(couples_reproducibly);
        }
        let s = choose|t: Option<K::Real>| #[trigger]
            is_absorption(k, c.absorption, l, Ok((a[j][i], t)));
        let t = choose|t: Option<K::Real>| #[trigger]
            is_absorption(k, c.absorption, l, Ok((b[j][i], t)));
        lemma_absorption_is_one(
            k,
            c.absorption,
            c.absorption,
            l,
            Ok((a[j][i], s)),
            Ok((b[j][i], t)),
        );
    }
    assert(a[j] =~= b[j]);
    assert(is_ring_deposit(c, j, a[j], q[j]) && is_ring_deposit(d, j, b[j], r[j]));
    let x = choose|profile: Seq<K::Real>| #[trigger]
        is_pencil(c, j, a[j], profile) && is_absorbed(k, profile, q[j]);
    let y = choose|profile: Seq<K::Real>| #[trigger]
        is_pencil(d, j, b[j], profile) && is_absorbed(k, profile, r[j]);
    let s = choose|s: K::Real| #[trigger] is_start(c, j, s) && is_march(k, s, a[j], x);
    let t = choose|s: K::Real| #[trigger] is_start(d, j, s) && is_march(k, s, b[j], y);
    assert(s == t) by {
        reveal(couples_reproducibly);
    }
    lemma_absorbed_is_one(k, s, a[j], x, y, q[j], r[j]);
}

proof fn lemma_speed_is_the_largest<K: Scheme1d>(
    k: K,
    cells: Seq<Conserved<K::Real>>,
    run: Seq<K::Real>,
    worth: spec_fn(K::Real) -> real,
    i: int,
)
    requires
        is_speed_run(k, cells, run),
        forall|a: K::Real, b: K::Real, c: K::Real| #[trigger]
            call_ensures(K::larger, (&k, a, b), c) ==> worth(c) >= worth(a) && worth(c) >= worth(b),
        0 <= i <= cells.len(),
    ensures
        forall|c: int|
            0 <= c < i ==> exists|s: K::Real| #[trigger]
                call_ensures(K::wave_speed, (&k, #[trigger] cells[c]), s) && worth(s) <= worth(
                    run[i],
                ),
    decreases i,
{
    if i > 0 {
        lemma_speed_is_the_largest(k, cells, run, worth, i - 1);
        let u = cells[i - 1];
        assert(is_larger_speed(k, u, run[i - 1], run[i - 1 + 1]));
        let t = choose|s: K::Real|
            #[trigger] call_ensures(K::wave_speed, (&k, u), s) && call_ensures(
                K::larger,
                (&k, run[i - 1], s),
                run[i],
            );
        assert forall|c: int| 0 <= c < i implies exists|s: K::Real| #[trigger]
            call_ensures(K::wave_speed, (&k, #[trigger] cells[c]), s) && worth(s) <= worth(run[i]) by {
            if c < i - 1 {
                let s = choose|s: K::Real| #[trigger]
                    call_ensures(K::wave_speed, (&k, cells[c]), s) && worth(s) <= worth(run[i - 1]);
                assert(call_ensures(K::wave_speed, (&k, cells[c]), s) && worth(s) <= worth(run[i]));
            } else {
                assert(call_ensures(K::wave_speed, (&k, cells[c]), t));
            }
        }
    }
}

/// A stable step suits every cell: over it no signal of any cell goes further than the
/// Courant number allows.
pub proof fn law_stable_step_suits_every_cell<K: Scheme1d>(
    d: Domain1d<K>,
    dt: K::Real,
    worth: spec_fn(K::Real) -> real,
    dx: real,
    c: int,
)
    requires
        is_stable_dt(d, Ok(dt)),
        forall|a: K::Real, b: K::Real, m: K::Real| #[trigger]
            call_ensures(K::larger, (&d.scheme, a, b), m) ==> worth(m) >= worth(a) && worth(m)
                >= worth(b),
        forall|s: K::Real, t: K::Real| #[trigger]
            call_ensures(K::courant_step, (&d.scheme, d.cfl, s), t) ==> worth(t) * worth(s) == worth(
                d.cfl,
            ) * dx && worth(t) >= 0real,
        0 <= c < d.cells.len(),
    ensures
        exists|s: K::Real| #[trigger]
            call_ensures(K::wave_speed, (&d.scheme, d.cells[c]), s) && worth(dt) * worth(s)
                <= worth(d.cfl) * dx,
{
    let top = choose|speed: K::Real|
        {
            &&& #[trigger] is_max_speed(d, speed)
            &&& call_ensures(K::is_positive, (&d.scheme, speed), true)
            &&& call_ensures(K::courant_step, (&d.scheme, d.cfl, speed), dt)
        };
    let run = choose|run: Seq<K::Real>|
        #[trigger] is_speed_run(d.scheme, d.cells, run) && run.last() == top;
    lemma_speed_is_the_largest(d.scheme, d.cells, run, worth, d.cells.len() as int);
    let u = d.cells[c];
    let s = choose|s: K::Real| #[trigger]
        call_ensures(K::wave_speed, (&d.scheme, u), s) && worth(s) <= worth(top);
    let (t, a, b) = (worth(dt), worth(s), worth(top));
    assert(t * a <= t * b) by (nonlinear_arith)
        requires
            a <= b,
            t >= 0real,
    ;
}

proof fn lemma_speeds_are_the_largest<K: Scheme2d>(
    k: K,
    cells: Seq<Conserved2d<K::Real>>,
    run: Seq<(K::Real, K::Real)>,
    worth: spec_fn(K::Real) -> real,
    i: int,
    c: int,
) -> (s: (K::Real, K::Real))
    requires
        crate::euler2d::is_speed_run(k, cells, run),
        forall|a: K::Real, b: K::Real, c: K::Real| #[trigger]
            call_ensures(K::larger, (&k, a, b), c) ==> worth(c) >= worth(a) && worth(c) >= worth(b),
        0 <= c < i <= cells.len(),
    ensures
        call_ensures(K::r_speed, (&k, cells[c]), s.0),
        call_ensures(K::x_speed, (&k, cells[c]), s.1),
        worth(s.0) <= worth(run[i].0),
        worth(s.1) <= worth(run[i].1),
    decreases i,
{
    let u = cells[i - 1];
    assert(is_faster(k, u, run[i - 1], run[i - 1 + 1]));
    let (r, x) = choose|r: K::Real, x: K::Real|
        {
            &&& #[trigger] call_ensures(K::r_speed, (&k, u), r)
            &&& #[trigger] call_ensures(K::x_speed, (&k, u), x)
            &&& call_ensures(K::larger, (&k, run[i - 1].0, r), run[i].0)
            &&& call_ensures(K::larger, (&k, run[i - 1].1, x), run[i].1)
        };
    if c == i - 1 {
        (r, x)
    } else {
        lemma_speeds_are_the_largest(k, cells, run, worth, i - 1, c)
    }
}

/// The place of a cell among all cells of a domain.
proof fn lemma_place_of_cell<S>(rows: Seq<Seq<S>>, j: int, i: int) -> (c: int)
    requires
        0 <= j < rows.len(),
        0 <= i < rows[j].len(),
    ensures
        0 <= c < all_cells(rows).len(),
        all_cells(rows)[c] == rows[j][i],
    decreases rows.len(),
{
    let head = all_cells(rows.drop_last());
    if j == rows.len() - 1 {
        head.len() + i
    } else {
        assert(rows.drop_last()[j] == rows[j]);
        lemma_place_of_cell(rows.drop_last(), j, i)
    }
}

/// A stable step of a two-dimensional domain suits every cell of every ring, along both
/// axes.
pub proof fn law_stable_step_suits_every_ring<K: Scheme2d>(
    d: Domain2d<K>,
    dt: K::Real,
    worth: spec_fn(K::Real) -> real,
    dr: real,
    dx: real,
    j: int,
    i: int,
)
    requires
        crate::euler2d::is_stable_dt(d, Ok(dt)),
        forall|a: K::Real, b: K::Real, m: K::Real| #[trigger]
            call_ensures(K::larger, (&d.scheme, a, b), m) ==> worth(m) >= worth(a) && worth(m)
                >= worth(b),
        forall|r: K::Real, x: K::Real, rate: K::Real| #[trigger]
            call_ensures(K::crossing_rate, (&d.scheme, r, x), rate) ==> worth(rate) == worth(r) * dr
                + worth(x) * dx,
        forall|s: K::Real, t: K::Real| #[trigger]
            call_ensures(K::courant_step, (&d.scheme, d.cfl, s), t) ==> worth(t) * worth(s) == worth(
                d.cfl,
            ) && worth(t) >= 0real,
        dr >= 0real,
        dx >= 0real,
        0 <= j < d.cells.len(),
        0 <= i < d.cells[j].len(),
    ensures
        exists|r: K::Real, x: K::Real|
            {
                &&& #[trigger] call_ensures(K::r_speed, (&d.scheme, d.cells[j][i]), r)
                &&& #[trigger] call_ensures(K::x_speed, (&d.scheme, d.cells[j][i]), x)
                &&& worth(dt) * (worth(r) * dr + worth(x) * dx) <= worth(d.cfl)
            },
{
    let (top, rate) = choose|s: (K::Real, K::Real), rate: K::Real|
        {
            &&& #[trigger] are_max_speeds(d, s)
            &&& #[trigger] call_ensures(K::crossing_rate, (&d.scheme, s.0, s.1), rate)
            &&& call_ensures(K::is_positive, (&d.scheme, rate), true)
            &&& call_ensures(K::courant_step, (&d.scheme, d.cfl, rate), dt)
        };
    let cells = all_cells(d.cells);
    let run = choose|run: Seq<(K::Real, K::Real)>|
        #[trigger] crate::euler2d::is_speed_run(d.scheme, cells, run) && run.last() == top;
    let c = lemma_place_of_cell(d.cells, j, i);
    let s = lemma_speeds_are_the_largest(d.scheme, cells, run, worth, cells.len() as int, c);
    let (t, r, x, a, b) = (worth(dt), worth(s.0), worth(s.1), worth(top.0), worth(top.1));
    assert(r * dr + x * dx <= a * dr + b * dx) by (nonlinear_arith)
        requires
            r <= a,
            x <= b,
            dr >= 0real,
            dx >= 0real,
    ;
    let (low, high) = (r * dr + x * dx, a * dr + b * dx);
    assert(t * low <= t * high) by (nonlinear_arith)
        requires
            low <= high,
            t >= 0real,
    ;
}

/// Jumps are compared by their worth, and one below a jump that is not aliased is not.
#[verifier::opaque]
pub open spec fn judges_jumps<K: Optics>(k: K, worth: spec_fn(K::Real) -> real) -> bool {
    &&& forall|a: K::Real, b: K::Real, g: bool| #[trigger]
        call_ensures(K::exceeds, (&k, a, b), g) ==> g == (worth(a) > worth(b))
    &&& forall|a: K::Real, b: K::Real|
        #![trigger call_ensures(K::is_aliased, (&k, a), true), call_ensures(K::is_aliased, (&k, b), false)]
        call_ensures(K::is_aliased, (&k, a), true) && call_ensures(K::is_aliased, (&k, b), false)
            ==> worth(a) > worth(b)
    &&& forall|a: K::Real, b: K::Real, dz: K::Real, x: K::Real, y: K::Real| #[trigger]
        call_ensures(K::phase_jump, (&k, a, b, dz), x) && #[trigger] call_ensures(
            K::phase_jump,
            (&k, a, b, dz),
            y,
        ) ==> x == y
}

proof fn lemma_jumps_only_grow<K: Optics>(
    k: K,
    n: nat,
    dn: Seq<Seq<K::Real>>,
    dz: K::Real,
    zero: K::Real,
    run: Seq<K::Real>,
    worth: spec_fn(K::Real) -> real,
    a: int,
    b: int,
)
    requires
        judges_jumps(k, worth),
        n > 0,
        is_fold_run(dn, n, zero, raises_jump(k, dn, dz), run),
        0 <= a <= b < run.len(),
    ensures
        worth(run[a]) <= worth(run[b]),
    decreases b - a,
{
    if a < b {
        lemma_jumps_only_grow(k, n, dn, dz, zero, run, worth, a, b - 1);
        let at = b - 1;
        let w = n as int;
        lemma_flat_unflat(w, at);
        let (j, i) = (at / w, at % w);
        assert(0 <= j < dn.len()) by (nonlinear_arith)
            requires
                w > 0,
                0 <= i,
                i < w,
                at == j * w + i,
                0 <= at,
                at < dn.len() * w,
        ;
        assert(flat(w, j, i) == at);
        assert(raises_jump(k, dn, dz)(run[at], j, i, dn[j][i], run[at + 1]));
        reveal(judges_jumps);
    }
}

/// A phase that is found well sampled is so everywhere: no pair of neighbours in any row
/// jumps by as much as an aliased jump.
pub proof fn law_sampled_phase_has_no_aliased_jump<K: Optics>(
    k: K,
    n: nat,
    dn: Plane<K::Real>,
    dz: K::Real,
    worth: spec_fn(K::Real) -> real,
    j: int,
    i: int,
    jump: K::Real,
)
    requires
        judges_jumps(k, worth),
        is_phase_check(k, n, dn, dz, false),
        0 <= j < dn@.len(),
        0 < i < n,
        call_ensures(K::phase_jump, (&k, dn@[j][i - 1], dn@[j][i], dz), jump),
    ensures
        !call_ensures(K::is_aliased, (&k, jump), true),
{
    let (zero, top) = choose|zero: K::Real, jump: K::Real|
        {
            &&& #[trigger] call_ensures(K::zero, (&k,), zero)
            &&& #[trigger] is_fold(dn@, n, zero, raises_jump(k, dn@, dz), jump)
            &&& call_ensures(K::is_aliased, (&k, jump), false)
        };
    let run = choose|run: Seq<K::Real>| #[trigger]
        is_fold_run(dn@, n, zero, raises_jump(k, dn@, dz), run) && run.last() == top;
    let at = flat(n as int, j, i);
    lemma_flat_bound(dn@.len() as int, n as int, j, i);
    assert(raises_jump(k, dn@, dz)(run[at], j, i, dn@[j][i], run[at + 1]));
    assert(worth(jump) <= worth(run[at + 1])) by {
        reveal(judges_jumps);
    }
    lemma_jumps_only_grow(k, n, dn@, dz, zero, run, worth, at + 1, run.len() - 1);
    reveal(judges_jumps);
}

/// A column that is found undisturbed is quiet at both of its ends, and one that is found
/// disturbed is not quiet at one of them.
pub proof fn law_undisturbed_column_is_quiet_at_both_ends<K: Beam1d>(
    c: Column1d<K>,
    b: bool,
    near: Primitive<K::Real>,
    far: Primitive<K::Real>,
)
    requires
        c.hydro.cells.len() > 0,
        is_undisturbed(c, b),
        forall|u: Conserved<K::Real>, v: Primitive<K::Real>, w: Primitive<K::Real>|
            #![trigger call_ensures(K::to_primitive, (&c.hydro.scheme, u), v), call_ensures(K::to_primitive, (&c.hydro.scheme, u), w)]
            call_ensures(K::to_primitive, (&c.hydro.scheme, u), v) && call_ensures(
                K::to_primitive,
                (&c.hydro.scheme, u),
                w,
            ) ==> v == w,
        forall|w: Primitive<K::Real>|
            !(#[trigger] call_ensures(K::is_quiet, (&c.hydro.scheme, w, c.ambient), true)
                && #[trigger] call_ensures(K::is_quiet, (&c.hydro.scheme, w, c.ambient), false)),
        call_ensures(K::to_primitive, (&c.hydro.scheme, c.hydro.cells[0]), near),
        call_ensures(
            K::to_primitive,
            (&c.hydro.scheme, c.hydro.cells[c.hydro.cells.len() - 1]),
            far,
        ),
    ensures
        b ==> !call_ensures(K::is_quiet, (&c.hydro.scheme, near, c.ambient), false)
            && !call_ensures(K::is_quiet, (&c.hydro.scheme, far, c.ambient), false),
        !b ==> !call_ensures(K::is_quiet, (&c.hydro.scheme, near, c.ambient), true)
            || !call_ensures(K::is_quiet, (&c.hydro.scheme, far, c.ambient), true),
{
    let states = choose|states: Seq<Primitive<K::Real>>|
        {
            &&& #[trigger] are_states(c, states)
            &&& {
                ||| call_ensures(K::is_quiet, (&c.hydro.scheme, states.first(), c.ambient), false)
                    && !b
                ||| call_ensures(K::is_quiet, (&c.hydro.scheme, states.first(), c.ambient), true)
                    && call_ensures(K::is_quiet, (&c.hydro.scheme, states.last(), c.ambient), b)
            }
        };
    assert(call_ensures(K::to_primitive, (&c.hydro.scheme, c.hydro.cells[0]), states[0]));
    let last = states.len() - 1;
    assert(call_ensures(K::to_primitive, (&c.hydro.scheme, c.hydro.cells[last]), states[last]));
}

/// The boundary of a wide column is quiet only where no cell of its first plane, of its
/// last plane and of its outermost ring is disturbed, and is not quiet where one is.
pub proof fn law_quiet_boundary_has_no_disturbed_cell<K: Beam2d>(
    c: Column2d<K>,
    j: int,
    i: int,
    w: Primitive2d<K::Real>,
)
    requires
        couples_reproducibly(c.hydro.scheme),
        is_boundary_quiet(c, true),
        forall|v: Primitive2d<K::Real>|
            !(#[trigger] call_ensures(K::is_disturbed, (&c.hydro.scheme, v, c.ambient), true)
                && #[trigger] call_ensures(K::is_disturbed, (&c.hydro.scheme, v, c.ambient), false)),
        0 <= j < c.hydro.cells.len(),
        0 <= i < c.hydro.n_x,
        i == 0 || i == c.hydro.n_x - 1 || j == c.hydro.cells.len() - 1,
        call_ensures(K::to_primitive, (&c.hydro.scheme, c.hydro.cells[j][i]), w),
    ensures
        !call_ensures(K::is_disturbed, (&c.hydro.scheme, w, c.ambient), true),
{
    assert(is_cell_disturbed(c, j, i, false));
    reveal(couples_reproducibly);
}

/// A step looks two cells away: where two lines agree in a cell and in the two cells on
/// either side of it, that cell is the same after a step, whatever is further away and
/// whatever is beyond the ends.
pub proof fn law_step_reads_two_cells_away<K: Scheme1d>(
    pre: Domain1d<K>,
    dt: K::Real,
    rates: spec_fn(int, K::Real, K::Real) -> bool,
    post: Domain1d<K>,
    other: Domain1d<K>,
    after: Domain1d<K>,
    i: int,
)
    requires
        is_step(pre, dt, rates, post),
        is_step(other, dt, rates, after),
        other.scheme == pre.scheme,
        is_deterministic(pre.scheme, dt),
        weighs_reproducibly(pre.scheme, dt),
        forall|x: K::Real, y: K::Real| #[trigger]
            call_ensures(K::x_centre, (&pre.scheme, i as usize), x) && #[trigger] call_ensures(
                K::x_centre,
                (&pre.scheme, i as usize),
                y,
            ) ==> x == y,
        forall|x: K::Real, a: K::Real, b: K::Real| #[trigger]
            rates(i, x, a) && #[trigger] rates(i, x, b) ==> a == b,
        forall|e: K::Real, q: K::Real, a: K::Real, b: K::Real| #[trigger]
            call_ensures(K::heat, (&pre.scheme, dt, e, q), a) && #[trigger] call_ensures(
                K::heat,
                (&pre.scheme, dt, e, q),
                b,
            ) ==> a == b,
        2 <= i < pre.cells.len() - 2,
        i < other.cells.len() - 2,
        forall|l: int| i - 2 <= l <= i + 2 ==> #[trigger] pre.cells[l] == other.cells[l],
    ensures
        post.cells[i] == after.cells[i],
{
    let k = pre.scheme;
    let (f, g) = choose|
        faces: Seq<(Conserved<K::Real>, Conserved<K::Real>)>,
        fluxes: Seq<Conserved<K::Real>>,
    | #[trigger]
        is_update(pre, dt, rates, faces, fluxes, post.cells);
    let (p, q) = choose|
        faces: Seq<(Conserved<K::Real>, Conserved<K::Real>)>,
        fluxes: Seq<Conserved<K::Real>>,
    | #[trigger]
        is_update(other, dt, rates, faces, fluxes, after.cells);
    let a = ghosted(pre.cells, pre.boundary);
    let b = ghosted(other.cells, other.boundary);
    assert forall|m: int| i <= m <= i + 4 implies #[trigger] a[m] == b[m] by {
        assert(a[m] == pre.cells[m - 2] && b[m] == other.cells[m - 2]);
    }
    assert forall|m: int| i <= m <= i + 2 implies #[trigger] f[m] == p[m] by {
        assert(are_cell_faces(k, dt, a[m], a[m + 1], a[m + 2], f[m]));
        assert(are_cell_faces(k, dt, b[m], b[m + 1], b[m + 2], p[m]));
        lemma_cell_faces_are_one(k, dt, a[m], a[m + 1], a[m + 2], f[m], p[m]);
    }
    assert forall|m: int| i <= m <= i + 1 implies #[trigger] g[m] == q[m] by {
        assert(is_hllc(k, f[m].1, f[m + 1].0, g[m]));
        assert(is_hllc(k, p[m].1, p[m + 1].0, q[m]));
        lemma_hllc_is_one(k, f[m].1, f[m + 1].0, g[m], q[m]);
    }
    assert(is_cell_update(pre, dt, rates, g, i, post.cells[i]));
    assert(is_cell_update(other, dt, rates, q, i, after.cells[i]));
    let u = choose|u: Conserved<K::Real>|
        {
            &&& #[trigger] is_advanced(k, dt, pre.cells[i], g[i], g[i + 1], u)
            &&& is_heated(k, dt, rates, i, u, post.cells[i])
        };
    let v = choose|u: Conserved<K::Real>|
        {
            &&& #[trigger] is_advanced(k, dt, other.cells[i], q[i], q[i + 1], u)
            &&& is_heated(k, dt, rates, i, u, after.cells[i])
        };
    lemma_advance_is_one(k, dt, pre.cells[i], g[i], g[i + 1], u, v);
    let (x, c) = choose|x: K::Real, rate: K::Real|
        {
            &&& #[trigger] rates(i, x, rate)
            &&& call_ensures(K::x_centre, (&k, i as usize), x)
            &&& is_warmed(k, dt, u, rate, post.cells[i])
        };
    let (y, d) = choose|x: K::Real, rate: K::Real|
        {
            &&& #[trigger] rates(i, x, rate)
            &&& call_ensures(K::x_centre, (&k, i as usize), x)
            &&& is_warmed(k, dt, v, rate, after.cells[i])
        };
    assert(x == y && c == d);
}

/// The lag of a wide wave is how far its front at the edge of the beam is beyond its front
/// on the axis.
pub proof fn law_lag_is_from_the_axis_to_the_edge<K: Beam2d>(
    c: Column2d<K>,
    lag: K::Real,
    worth: spec_fn(K::Real) -> real,
    ring: usize,
    axis: K::Real,
    edge: K::Real,
)
    requires
        is_repeatable_column(c.line),
        couples_reproducibly(c.hydro.scheme),
        is_lag(c, Some(lag)),
        forall|r: usize| #[trigger]
            call_ensures(K::ring_of, (&c.hydro.scheme, c.beam.spec_radius()), r) ==> r == ring,
        forall|a: K::Real, b: K::Real, d: K::Real| #[trigger]
            call_ensures(K::minus, (&c.hydro.scheme, a, b), d) ==> worth(d) == worth(a) - worth(b),
        ring < c.hydro.cells.len(),
        is_front_at(c, 0, Some(axis)),
        is_front_at(c, ring as int, Some(edge)),
    ensures
        worth(lag) == worth(edge) - worth(axis),
{
    let (e, a) = choose|edge: K::Real, axis: K::Real|
        {
            &&& #[trigger] is_front_at(c, ring as int, Some(edge))
            &&& #[trigger] is_front_at(c, 0, Some(axis))
            &&& call_ensures(K::minus, (&c.hydro.scheme, edge, axis), lag)
        };
    lemma_ring_front_is_one(c, ring as int, Some(e), Some(edge));
    lemma_ring_front_is_one(c, 0, Some(a), Some(axis));
}

proof fn lemma_ring_front_is_one<K: Beam2d>(
    c: Column2d<K>,
    j: int,
    r: Option<K::Real>,
    s: Option<K::Real>,
)
    requires
        is_repeatable_column(c.line),
        couples_reproducibly(c.hydro.scheme),
        is_front_at(c, j, r),
        is_front_at(c, j, s),
    ensures
        r == s,
{
    let a = choose|line: Seq<Primitive<K::Real>>| #[trigger]
        is_ring_line(c, j, line) && is_front_in(c.line, c.ambient_line, line, r);
    let b = choose|line: Seq<Primitive<K::Real>>| #[trigger]
        is_ring_line(c, j, line) && is_front_in(c.line, c.ambient_line, line, s);
    assert forall|i: int| 0 <= i < a.len() implies #[trigger] a[i] == b[i] by {
        assert(is_cell_line(c, j, i, a[i]) && is_cell_line(c, j, i, b[i]));
        reveal(couples_reproducibly);
    }
    assert(a =~= b);
    lemma_front_is_one(c.line, c.ambient_line, a, r, s);
}

/// The split geometric source pushes each cell by the radius of its own ring.
pub proof fn law_split_source_pushes_by_the_ring<K: Scheme2d>(
    pre: Domain2d<K>,
    dt: K::Real,
    stage: Stage2d,
    post: Domain2d<K>,
    j: int,
    i: int,
)
    requires
        is_mapping(pre, pushed(pre.scheme, dt), stage, post, Ok(())),
        0 <= j < pre.cells.len(),
        0 <= i < pre.cells[j].len(),
    ensures
        exists|r: K::Real|
            #[trigger] call_ensures(K::r_centre, (&pre.scheme, j as usize), r) && call_ensures(
                K::push_outward,
                (&pre.scheme, dt, pre.cells[j][i], r),
                post.cells[j][i],
            ),
{
    assert(pushed(pre.scheme, dt)(j, i, pre.cells[j][i], post.cells[j][i]));
}

} // verus!

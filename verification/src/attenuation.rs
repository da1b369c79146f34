//! What a medium takes from a beam that crosses it.
//!
//! Over exact numbers a slab takes from each sample what its extinction there says,
//! and diffraction takes nothing. So a uniform extinction dims the whole beam by one
//! factor per slab.
use crate::algebra::{lemma_associates, lemma_distributes};
use crate::field::is_power;
use crate::medium::{Medium, UniformExtinction};
use crate::optics::Optics;
use crate::plane::Plane;
use crate::propagate::{
    is_diffracted, is_passed, is_run, is_slab, is_slab_answer, is_square, is_staged, is_step,
    is_step_at, CachedKernel, March,
};
use vstd::prelude::*;

verus! {

/// Sum of the brightness of the first `i` samples of a row, each taken by its weight.
pub open spec fn row_glow<C>(
    bright: spec_fn(C) -> real,
    weight: spec_fn(int) -> real,
    row: Seq<C>,
    i: nat,
) -> real
    decreases i,
{
    if i == 0 {
        0real
    } else {
        row_glow(bright, weight, row, (i - 1) as nat) + weight(i - 1) * bright(row[i - 1])
    }
}

/// Sum of the brightness of the samples of the first `j` rows of `n`, each taken by
/// its weight.
pub open spec fn glow_of<C>(
    bright: spec_fn(C) -> real,
    weight: spec_fn(int, int) -> real,
    rows: Seq<Seq<C>>,
    n: nat,
    j: nat,
) -> real
    decreases j,
{
    if j == 0 {
        0real
    } else {
        glow_of(bright, weight, rows, n, (j - 1) as nat) + row_glow(
            bright,
            |i: int| weight(j - 1, i),
            rows[j - 1],
            n,
        )
    }
}

/// Sum of the brightness of a square of samples.
pub open spec fn glow<C>(bright: spec_fn(C) -> real, rows: Seq<Seq<C>>, n: nat) -> real {
    glow_of(bright, |j: int, i: int| 1real, rows, n, n)
}

/// Sum of the brightness of a square of samples, each dimmed as the extinction at its
/// place says.
pub open spec fn dimmed_glow<R, C>(
    bright: spec_fn(C) -> real,
    factor: spec_fn(R) -> real,
    alpha: Seq<Seq<R>>,
    rows: Seq<Seq<C>>,
    n: nat,
) -> real {
    glow_of(bright, |j: int, i: int| factor(alpha[j][i]), rows, n, n)
}

/// A factor, `i` times over.
pub open spec fn times_over(factor: real, i: nat) -> real
    decreases i,
{
    if i == 0 {
        1real
    } else {
        factor * times_over(factor, (i - 1) as nat)
    }
}

/// Crossing a slab of thickness `dz` turns the phase of a sample, and dims it by the
/// factor of the extinction there.
#[verifier::opaque]
pub open spec fn dims_by<K: Optics>(
    k: K,
    dz: K::Real,
    bright: spec_fn(K::Complex) -> real,
    factor: spec_fn(K::Real) -> real,
) -> bool {
    &&& forall|c: K::Complex, dn: K::Real, alpha: K::Real, v: K::Complex| #[trigger]
        call_ensures(K::retard_and_decay, (&k, c, dn, alpha, dz), v) ==> bright(v) == factor(alpha)
            * bright(c)
    &&& forall|c: K::Complex, dn: K::Real, v: K::Complex| #[trigger]
        call_ensures(K::retard, (&k, c, dn, dz), v) ==> bright(v) == bright(c)
    &&& forall|alpha: K::Real| #[trigger]
        call_ensures(K::is_zero, (&k, alpha), true) ==> factor(alpha) == 1real
}

/// Diffraction over half a slab takes nothing from a square of samples.
#[verifier::opaque]
pub open spec fn diffracts_without_loss<K: Optics>(
    k: K,
    n: nat,
    dz: K::Real,
    bright: spec_fn(K::Complex) -> real,
) -> bool {
    forall|
        half: K::Real,
        u: Plane<K::Complex>,
        h: CachedKernel<K::Real, K::Complex>,
        v: Plane<K::Complex>,
    | #[trigger]
        is_diffracted(k, n as int, half, u, h, v) && call_ensures(K::half, (&k, dz), half)
            && is_square(u, n as int) ==> glow(bright, v@, n) == glow(bright, u@, n)
}

/// Power is the sum of the brightness, in some unit.
pub open spec fn counts_brightness<K: Optics>(
    k: K,
    n: nat,
    bright: spec_fn(K::Complex) -> real,
    worth: spec_fn(K::Real) -> real,
    unit: real,
) -> bool {
    forall|rows: Seq<Seq<K::Complex>>, p: K::Real| #[trigger]
        is_power(k, rows, n, p) ==> worth(p) == unit * glow(bright, rows, n)
}

proof fn lemma_row_is_weighed<C>(
    bright: spec_fn(C) -> real,
    a: spec_fn(int) -> real,
    b: spec_fn(int) -> real,
    u: Seq<C>,
    v: Seq<C>,
    i: nat,
)
    requires
        forall|l: int|
            0 <= l < i ==> a(l) * bright(#[trigger] u[l]) == b(l) * bright(#[trigger] v[l]),
    ensures
        row_glow(bright, a, u, i) == row_glow(bright, b, v, i),
    decreases i,
{
    if i > 0 {
        lemma_row_is_weighed(bright, a, b, u, v, (i - 1) as nat);
        assert(a(i - 1) * bright(u[i - 1]) == b(i - 1) * bright(v[i - 1]));
    }
}

proof fn lemma_square_is_weighed<C>(
    bright: spec_fn(C) -> real,
    a: spec_fn(int, int) -> real,
    b: spec_fn(int, int) -> real,
    u: Seq<Seq<C>>,
    v: Seq<Seq<C>>,
    n: nat,
    j: nat,
)
    requires
        forall|m: int, l: int|
            0 <= m < j && 0 <= l < n ==> a(m, l) * bright(#[trigger] u[m][l]) == b(m, l) * bright(
                #[trigger] v[m][l],
            ),
    ensures
        glow_of(bright, a, u, n, j) == glow_of(bright, b, v, n, j),
    decreases j,
{
    if j > 0 {
        lemma_square_is_weighed(bright, a, b, u, v, n, (j - 1) as nat);
        let (x, y) = (|i: int| a(j - 1, i), |i: int| b(j - 1, i));
        assert forall|l: int| 0 <= l < n implies x(l) * bright(#[trigger] u[j - 1][l]) == y(l)
            * bright(#[trigger] v[j - 1][l]) by {
            assert(a(j - 1, l) * bright(u[j - 1][l]) == b(j - 1, l) * bright(v[j - 1][l]));
        }
        lemma_row_is_weighed(bright, x, y, u[j - 1], v[j - 1], n);
    }
}

proof fn lemma_row_has_one_weight<C>(
    bright: spec_fn(C) -> real,
    a: spec_fn(int) -> real,
    one: spec_fn(int) -> real,
    f: real,
    u: Seq<C>,
    i: nat,
)
    requires
        forall|l: int| 0 <= l < i ==> #[trigger] a(l) == f,
        forall|l: int| 0 <= l < i ==> #[trigger] one(l) == 1real,
    ensures
        row_glow(bright, a, u, i) == f * row_glow(bright, one, u, i),
    decreases i,
{
    if i > 0 {
        lemma_row_has_one_weight(bright, a, one, f, u, (i - 1) as nat);
        assert(a(i - 1) == f && one(i - 1) == 1real);
        let (s, b) = (row_glow(bright, one, u, (i - 1) as nat), bright(u[i - 1]));
        lemma_distributes(s, b, f);
        assert(1real * b == b);
    } else {
        assert(f * 0real == 0real) by (nonlinear_arith);
    }
}

proof fn lemma_square_has_one_weight<C>(
    bright: spec_fn(C) -> real,
    a: spec_fn(int, int) -> real,
    one: spec_fn(int, int) -> real,
    f: real,
    u: Seq<Seq<C>>,
    n: nat,
    j: nat,
)
    requires
        forall|m: int, l: int| 0 <= m < j && 0 <= l < n ==> #[trigger] a(m, l) == f,
        forall|m: int, l: int| 0 <= m < j && 0 <= l < n ==> #[trigger] one(m, l) == 1real,
    ensures
        glow_of(bright, a, u, n, j) == f * glow_of(bright, one, u, n, j),
    decreases j,
{
    if j > 0 {
        lemma_square_has_one_weight(bright, a, one, f, u, n, (j - 1) as nat);
        let (x, y) = (|i: int| a(j - 1, i), |i: int| one(j - 1, i));
        lemma_row_has_one_weight(bright, x, y, f, u[j - 1], n);
        lemma_distributes(
            glow_of(bright, one, u, n, (j - 1) as nat),
            row_glow(bright, y, u[j - 1], n),
            f,
        );
    } else {
        assert(f * 0real == 0real) by (nonlinear_arith);
    }
}

/// A slab takes exactly what its extinction says: from each sample the share that the
/// extinction there takes, and nothing where the slab is lossless.
pub proof fn law_slab_takes_what_its_extinction_says<K: Optics>(
    k: K,
    n: nat,
    dn: Plane<K::Real>,
    loss: Option<Plane<K::Real>>,
    dz: K::Real,
    u: Plane<K::Complex>,
    v: Plane<K::Complex>,
    bright: spec_fn(K::Complex) -> real,
    factor: spec_fn(K::Real) -> real,
)
    requires
        dims_by(k, dz, bright, factor),
        is_passed(k, n as int, dn, loss, dz, u, v),
    ensures
        glow(bright, v@, n) == match loss {
            Some(alpha) => dimmed_glow(bright, factor, alpha@, u@, n),
            None => glow(bright, u@, n),
        },
{
    reveal(dims_by);
    let one = |j: int, i: int| 1real;
    match loss {
        Some(alpha) => {
            let w = |j: int, i: int| factor(alpha@[j][i]);
            assert forall|m: int, l: int| 0 <= m < n && 0 <= l < n implies one(m, l) * bright(
                #[trigger] v@[m][l],
            ) == w(m, l) * bright(#[trigger] u@[m][l]) by {
                assert(call_ensures(
                    K::retard_and_decay,
                    (&k, u@[m][l], dn@[m][l], alpha@[m][l], dz),
                    v@[m][l],
                ));
            }
            lemma_square_is_weighed(bright, one, w, v@, u@, n, n);
        },
        None => {
            assert forall|m: int, l: int| 0 <= m < n && 0 <= l < n implies one(m, l) * bright(
                #[trigger] v@[m][l],
            ) == one(m, l) * bright(#[trigger] u@[m][l]) by {
                assert(call_ensures(K::retard, (&k, u@[m][l], dn@[m][l], dz), v@[m][l]));
            }
            lemma_square_is_weighed(bright, one, one, v@, u@, n, n);
        },
    }
}

/// A slab of uniform extinction dims a beam by one factor.
proof fn lemma_uniform_slab_dims<K: Optics>(
    k: K,
    n: nat,
    medium: UniformExtinction<K::Real>,
    z_slab: usize,
    dz: K::Real,
    u: Plane<K::Complex>,
    v: Plane<K::Complex>,
    bright: spec_fn(K::Complex) -> real,
    factor: spec_fn(K::Real) -> real,
)
    requires
        dims_by(k, dz, bright, factor),
        medium.spec_n() == n,
        is_slab(k, n, medium, z_slab, dz, u, Ok(v)),
    ensures
        glow(bright, v@, n) == factor(medium.spec_alpha()) * glow(bright, u@, n),
{
    let (needs, index, loss) = choose|
        needs: bool,
        index: Result<Plane<K::Real>, ()>,
        loss: Option<Plane<K::Real>>,
    |
        is_slab_answer(k, n, medium, z_slab, dz, u, needs, index, loss, Ok(v));
    law_slab_takes_what_its_extinction_says(k, n, index->Ok_0, loss, dz, u, v, bright, factor);
    assert(call_ensures(
        <UniformExtinction<K::Real> as Medium<K>>::extinction,
        (&medium, &k, z_slab),
        loss,
    ));
    let f = factor(medium.spec_alpha());
    match loss {
        Some(alpha) => {
            lemma_square_has_one_weight(
                bright,
                |j: int, i: int| factor(alpha@[j][i]),
                |j: int, i: int| 1real,
                f,
                u@,
                n,
                n,
            );
        },
        None => {
            reveal(dims_by);
            assert(1real * glow(bright, u@, n) == glow(bright, u@, n));
        },
    }
}

/// A step through uniform extinction dims a beam by one factor, where no edge takes
/// any of it.
proof fn lemma_uniform_step_dims<K: Optics>(
    pre: March<K>,
    medium: UniformExtinction<K::Real>,
    z_slab: usize,
    dz: K::Real,
    u: Plane<K::Complex>,
    post: March<K>,
    v: Plane<K::Complex>,
    bright: spec_fn(K::Complex) -> real,
    factor: spec_fn(K::Real) -> real,
)
    requires
        dims_by(pre.optics, dz, bright, factor),
        diffracts_without_loss(pre.optics, pre.n, dz, bright),
        medium.spec_n() == pre.n,
        !pre.applies_edge,
        is_square(u, pre.n as int),
        is_step(pre, medium, z_slab, dz, u, post, v, Ok(())),
    ensures
        (post.optics, post.n, post.applies_edge) == (pre.optics, pre.n, pre.applies_edge),
        is_square(v, pre.n as int),
        glow(bright, v@, pre.n) == factor(medium.spec_alpha()) * glow(bright, u@, pre.n),
{
    let (half, mid, a, b, late, c) = choose|
        half: K::Real,
        mid: March<K>,
        a: Plane<K::Complex>,
        b: Plane<K::Complex>,
        late: March<K>,
        c: Plane<K::Complex>,
    | #[trigger]
        is_staged(pre, medium, z_slab, dz, u, half, mid, a, b, late, c, post, v, Ok(()));
    assert(is_diffracted(pre.optics, pre.n as int, half, u, mid.cached->0, a));
    assert(is_diffracted(pre.optics, pre.n as int, half, b, late.cached->0, c));
    assert(glow(bright, a@, pre.n) == glow(bright, u@, pre.n) && glow(bright, c@, pre.n) == glow(
        bright,
        b@,
        pre.n,
    )) by {
        reveal(diffracts_without_loss);
    }
    lemma_uniform_slab_dims(pre.optics, pre.n, medium, z_slab, dz, a, b, bright, factor);
}

/// A uniform extinction transmits one factor per slab: after `i` slabs, and no edge,
/// the power of the beam is the launched power times the factor, `i` times over.
pub proof fn law_uniform_extinction_is_one_factor_per_slab<K: Optics>(
    pre: March<K>,
    medium: UniformExtinction<K::Real>,
    dz: K::Real,
    first_slab: usize,
    u: Plane<K::Complex>,
    trace: Seq<(March<K>, Plane<K::Complex>)>,
    bright: spec_fn(K::Complex) -> real,
    factor: spec_fn(K::Real) -> real,
    worth: spec_fn(K::Real) -> real,
    unit: real,
    i: nat,
)
    requires
        dims_by(pre.optics, dz, bright, factor),
        diffracts_without_loss(pre.optics, pre.n, dz, bright),
        counts_brightness(pre.optics, pre.n, bright, worth, unit),
        medium.spec_n() == pre.n,
        !pre.applies_edge,
        is_square(u, pre.n as int),
        is_run(pre, medium, dz, first_slab, u, trace),
        i < trace.len(),
    ensures
        (trace[i as int].0.optics, trace[i as int].0.n, trace[i as int].0.applies_edge) == (
            pre.optics,
            pre.n,
            pre.applies_edge,
        ),
        is_square(trace[i as int].1, pre.n as int),
        glow(bright, trace[i as int].1@, pre.n) == times_over(factor(medium.spec_alpha()), i)
            * glow(bright, u@, pre.n),
        forall|launched: K::Real, left: K::Real|
            #![trigger is_power(pre.optics, u@, pre.n, launched), is_power(pre.optics, trace[i as int].1@, pre.n, left)]
            is_power(pre.optics, u@, pre.n, launched) && is_power(
                pre.optics,
                trace[i as int].1@,
                pre.n,
                left,
            ) ==> worth(left) == times_over(factor(medium.spec_alpha()), i) * worth(launched),
    decreases i,
{
    let f = factor(medium.spec_alpha());
    let g = glow(bright, u@, pre.n);
    if i > 0 {
        let j = (i - 1) as nat;
        law_uniform_extinction_is_one_factor_per_slab(
            pre,
            medium,
            dz,
            first_slab,
            u,
            trace,
            bright,
            factor,
            worth,
            unit,
            j,
        );
        assert(is_step_at(medium, dz, first_slab, trace, j as int));
        lemma_uniform_step_dims(
            trace[j as int].0,
            medium,
            (first_slab + j) as usize,
            dz,
            trace[j as int].1,
            trace[i as int].0,
            trace[i as int].1,
            bright,
            factor,
        );
        lemma_associates(f, times_over(f, j), g);
    } else {
        assert(1real * g == g);
    }
    let t = times_over(f, i);
    assert(unit * (t * g) == t * (unit * g)) by (nonlinear_arith);
}

} // verus!

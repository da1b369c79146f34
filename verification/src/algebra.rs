//! Facts of the algebra of real numbers, as proofs use them.
use vstd::prelude::*;

verus! {

pub proof fn lemma_commutes(a: real, b: real)
    ensures
        a * b == b * a,
{
    assert(a * b == b * a) by (nonlinear_arith);
}

pub proof fn lemma_nothing(a: real)
    ensures
        a * 0real == 0real,
        0real * a == 0real,
{
    assert(a * 0real == 0real) by (nonlinear_arith);
    assert(0real * a == 0real) by (nonlinear_arith);
}

pub proof fn lemma_associates(a: real, b: real, c: real)
    ensures
        a * (b * c) == (a * b) * c,
{
    assert(a * (b * c) == (a * b) * c) by (nonlinear_arith);
}

pub proof fn lemma_distributes(a: real, b: real, c: real)
    ensures
        (a + b) * c == a * c + b * c,
        (a - b) * c == a * c - b * c,
        c * (a + b) == c * a + c * b,
        c * (a - b) == c * a - c * b,
{
    assert((a + b) * c == a * c + b * c) by (nonlinear_arith);
    assert((a - b) * c == a * c - b * c) by (nonlinear_arith);
    assert(c * (a + b) == c * a + c * b) by (nonlinear_arith);
    assert(c * (a - b) == c * a - c * b) by (nonlinear_arith);
}

pub proof fn lemma_negates(a: real, b: real)
    ensures
        a * b == b * a,
        (0real - a) * b == 0real - a * b,
        a * (0real - b) == 0real - a * b,
        (0real - b) * (0real - a) == a * b,
{
    lemma_commutes(a, b);
    lemma_distributes(0real, a, b);
    lemma_distributes(0real, b, a);
    lemma_distributes(0real, b, 0real - a);
    assert(0real * b == 0real);
    assert(b * 0real == 0real);
    assert(0real * a == 0real);
    assert(a * 0real == 0real);
    assert(0real * (0real - a) == 0real);
    lemma_distributes(0real, a, b);
}

pub proof fn lemma_square_is_not_negative(a: real)
    ensures
        a * a >= 0real,
{
    assert(a * a >= 0real) by (nonlinear_arith);
}

pub proof fn lemma_positive(a: real, b: real)
    requires
        a > 0real,
        b > 0real,
    ensures
        a * b > 0real,
{
    assert(a * b > 0real) by (nonlinear_arith)
        requires
            a > 0real,
            b > 0real,
    ;
}

/// A factor that is not negative keeps an order.
pub proof fn lemma_keeps_order(a: real, b: real, c: real)
    requires
        a <= b,
        c >= 0real,
    ensures
        a * c <= b * c,
        c * a <= c * b,
{
    lemma_distributes(b, a, c);
    if a < b && c > 0real {
        lemma_positive(b - a, c);
    } else if c == 0real {
        assert(a * 0real == 0real && b * 0real == 0real);
        assert(0real * a == 0real && 0real * b == 0real);
    }
    lemma_commutes(a, c);
    lemma_commutes(b, c);
}

/// An order of products by one factor above zero is an order of the other factors.
pub proof fn lemma_reads_order(a: real, b: real, c: real)
    requires
        c > 0real,
        a * c <= b * c,
    ensures
        a <= b,
{
    if b < a {
        lemma_positive(a - b, c);
        lemma_distributes(a, b, c);
    }
}

/// Equal products by one factor have equal other factors.
pub proof fn lemma_cancels(a: real, b: real, c: real)
    requires
        c != 0real,
        a * c == b * c,
    ensures
        a == b,
{
    if c > 0real {
        lemma_reads_order(a, b, c);
        lemma_reads_order(b, a, c);
    } else {
        lemma_negates(a, c);
        lemma_negates(b, c);
        lemma_reads_order(a, b, 0real - c);
        lemma_reads_order(b, a, 0real - c);
    }
}

pub proof fn lemma_square_of_sum(a: real, b: real)
    ensures
        (a + b) * (a + b) == a * a + (a * b + a * b) + b * b,
        (a - b) * (a - b) == a * a - (a * b + a * b) + b * b,
{
    lemma_distributes(a, b, a + b);
    lemma_distributes(a, b, a);
    lemma_distributes(a, b, b);
    lemma_distributes(a, b, a - b);
    lemma_commutes(a, b);
}

/// A square is no larger than another only where its root is not.
pub proof fn lemma_roots_order(a: real, b: real)
    requires
        b >= 0real,
        a * a <= b * b,
    ensures
        a <= b,
{
    if a > b {
        lemma_keeps_order(b, a, b);
        lemma_positive(a - b, a);
        lemma_distributes(a, b, a);
        lemma_commutes(a, b);
    }
}

/// A product of three factors, the first one last.
pub proof fn lemma_rolls(a: real, b: real, c: real)
    ensures
        a * (b * c) == b * (c * a),
{
    lemma_associates(a, b, c);
    lemma_commutes(a, b);
    lemma_associates(b, a, c);
    lemma_commutes(a, c);
}

pub proof fn lemma_distributes_over_three(a: real, b: real, c: real, d: real)
    ensures
        d * (a + b + c) == d * a + d * b + d * c,
{
    lemma_distributes(a + b, c, d);
    lemma_distributes(a, b, d);
}

/// Factors may trade places.
pub proof fn lemma_regroups(a: real, b: real, c: real, d: real)
    ensures
        (a * b) * (c * d) == (a * c) * (b * d),
{
    lemma_associates(a * b, c, d);
    lemma_associates(a, b, c);
    lemma_commutes(b, c);
    lemma_associates(a, c, b);
    lemma_associates(a * c, b, d);
}

/// The last two of three factors may trade places.
pub proof fn lemma_trades(a: real, b: real, c: real)
    ensures
        a * b * c == a * c * b,
{
    lemma_associates(a, b, c);
    lemma_commutes(b, c);
    lemma_associates(a, c, b);
}

/// The share `weight` of a difference of two fluxes `f`, each through its area `a`,
/// counted in a cell of the given volume, of which `weight` is the inverse share of
/// `dt`, is what the fluxes carry in `dt`; all of it `c` times.
pub proof fn lemma_scaled_gain(
    u: real,
    v: real,
    weight: real,
    volume: real,
    dt: real,
    a_hi: real,
    f_hi: real,
    a_lo: real,
    f_lo: real,
    c: real,
)
    requires
        v == u - weight * (a_hi * f_hi - a_lo * f_lo),
        weight * volume == dt,
    ensures
        v * (volume * c) == u * (volume * c) + f_lo * a_lo * dt * c - f_hi * a_hi * dt * c,
{
    let d = a_hi * f_hi - a_lo * f_lo;
    let k = volume * c;
    lemma_distributes(u, weight * d, k);
    lemma_regroups(weight, d, volume, c);
    lemma_associates(dt, d, c);
    lemma_distributes(a_hi * f_hi, a_lo * f_lo, dt);
    lemma_distributes(dt * (a_hi * f_hi), dt * (a_lo * f_lo), c);
    lemma_commutes(a_hi, f_hi);
    lemma_commutes(a_lo, f_lo);
    lemma_commutes(dt, f_hi * a_hi);
    lemma_commutes(dt, f_lo * a_lo);
}

} // verus!

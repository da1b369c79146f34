//! Sums over the samples of an array.
use crate::algebra::lemma_distributes;
use crate::euler1d::tally;
use crate::plane::{flat, is_fold, is_fold_run};
use vstd::prelude::*;

verus! {

/// Sum of the first `i` terms of a line.
pub open spec fn line_sum(f: spec_fn(int) -> real, i: nat) -> real
    decreases i,
{
    if i == 0 {
        0real
    } else {
        line_sum(f, (i - 1) as nat) + f(i - 1)
    }
}

/// Sum of the first `j` rows, of `width` terms each.
pub open spec fn plane_sum(f: spec_fn(int, int) -> real, width: nat, j: nat) -> real
    decreases j,
{
    if j == 0 {
        0real
    } else {
        plane_sum(f, width, (j - 1) as nat) + line_sum(|i: int| f(j - 1, i), width)
    }
}

/// Sum of a square of samples, each by its worth.
pub open spec fn total_of<T>(worth: spec_fn(T) -> real, rows: Seq<Seq<T>>, n: nat) -> real {
    plane_sum(|j: int, i: int| worth(rows[j][i]), n, n)
}

pub proof fn lemma_line_sums_agree(f: spec_fn(int) -> real, g: spec_fn(int) -> real, i: nat)
    requires
        forall|l: int| 0 <= l < i ==> #[trigger] f(l) == g(l),
    ensures
        line_sum(f, i) == line_sum(g, i),
    decreases i,
{
    if i > 0 {
        lemma_line_sums_agree(f, g, (i - 1) as nat);
        assert(f(i - 1) == g(i - 1));
    }
}

pub proof fn lemma_plane_sums_agree(
    f: spec_fn(int, int) -> real,
    g: spec_fn(int, int) -> real,
    width: nat,
    j: nat,
)
    requires
        forall|l: int, i: int| 0 <= l < j && 0 <= i < width ==> #[trigger] f(l, i) == g(l, i),
    ensures
        plane_sum(f, width, j) == plane_sum(g, width, j),
    decreases j,
{
    if j > 0 {
        lemma_plane_sums_agree(f, g, width, (j - 1) as nat);
        let (a, b) = (|i: int| f(j - 1, i), |i: int| g(j - 1, i));
        assert forall|i: int| 0 <= i < width implies #[trigger] a(i) == b(i) by {
            assert(f(j - 1, i) == g(j - 1, i));
        }
        lemma_line_sums_agree(a, b, width);
    }
}

pub proof fn lemma_line_sum_adds(
    f: spec_fn(int) -> real,
    g: spec_fn(int) -> real,
    h: spec_fn(int) -> real,
    i: nat,
)
    requires
        forall|l: int| 0 <= l < i ==> #[trigger] h(l) == f(l) + g(l),
    ensures
        line_sum(h, i) == line_sum(f, i) + line_sum(g, i),
    decreases i,
{
    if i > 0 {
        lemma_line_sum_adds(f, g, h, (i - 1) as nat);
        assert(h(i - 1) == f(i - 1) + g(i - 1));
    }
}

pub proof fn lemma_plane_sum_adds(
    f: spec_fn(int, int) -> real,
    g: spec_fn(int, int) -> real,
    h: spec_fn(int, int) -> real,
    width: nat,
    j: nat,
)
    requires
        forall|l: int, i: int|
            0 <= l < j && 0 <= i < width ==> #[trigger] h(l, i) == f(l, i) + g(l, i),
    ensures
        plane_sum(h, width, j) == plane_sum(f, width, j) + plane_sum(g, width, j),
    decreases j,
{
    if j > 0 {
        lemma_plane_sum_adds(f, g, h, width, (j - 1) as nat);
        let (a, b, c) = (|i: int| f(j - 1, i), |i: int| g(j - 1, i), |i: int| h(j - 1, i));
        assert forall|i: int| 0 <= i < width implies #[trigger] c(i) == a(i) + b(i) by {
            assert(h(j - 1, i) == f(j - 1, i) + g(j - 1, i));
        }
        lemma_line_sum_adds(a, b, c, width);
    }
}

pub proof fn lemma_line_sum_scales(
    f: spec_fn(int) -> real,
    g: spec_fn(int) -> real,
    s: real,
    i: nat,
)
    requires
        forall|l: int| 0 <= l < i ==> #[trigger] g(l) == s * f(l),
    ensures
        line_sum(g, i) == s * line_sum(f, i),
    decreases i,
{
    if i > 0 {
        lemma_line_sum_scales(f, g, s, (i - 1) as nat);
        assert(g(i - 1) == s * f(i - 1));
        lemma_distributes(line_sum(f, (i - 1) as nat), f(i - 1), s);
    } else {
        assert(s * 0real == 0real) by (nonlinear_arith);
    }
}

pub proof fn lemma_plane_sum_scales(
    f: spec_fn(int, int) -> real,
    g: spec_fn(int, int) -> real,
    s: real,
    width: nat,
    j: nat,
)
    requires
        forall|l: int, i: int| 0 <= l < j && 0 <= i < width ==> #[trigger] g(l, i) == s * f(l, i),
    ensures
        plane_sum(g, width, j) == s * plane_sum(f, width, j),
    decreases j,
{
    if j > 0 {
        lemma_plane_sum_scales(f, g, s, width, (j - 1) as nat);
        let (a, b) = (|i: int| f(j - 1, i), |i: int| g(j - 1, i));
        assert forall|i: int| 0 <= i < width implies #[trigger] b(i) == s * a(i) by {
            assert(g(j - 1, i) == s * f(j - 1, i));
        }
        lemma_line_sum_scales(a, b, s, width);
        lemma_distributes(plane_sum(f, width, (j - 1) as nat), line_sum(a, width), s);
    } else {
        assert(s * 0real == 0real) by (nonlinear_arith);
    }
}

/// Rows that are one term longer hold one more column.
proof fn lemma_column_is_added(f: spec_fn(int, int) -> real, width: nat, j: nat)
    ensures
        plane_sum(f, width + 1, j) == plane_sum(f, width, j) + line_sum(
            |l: int| f(l, width as int),
            j,
        ),
    decreases j,
{
    if j > 0 {
        let column = |l: int| f(l, width as int);
        lemma_column_is_added(f, width, (j - 1) as nat);
        let a = |i: int| f(j - 1, i);
        assert(line_sum(a, width + 1) == line_sum(a, width) + a(width as int));
        assert(line_sum(column, j) == line_sum(column, (j - 1) as nat) + column(j - 1));
    }
}

proof fn lemma_no_columns(f: spec_fn(int, int) -> real, j: nat)
    ensures
        plane_sum(f, 0, j) == 0real,
    decreases j,
{
    if j > 0 {
        lemma_no_columns(f, (j - 1) as nat);
    }
}

/// Rows first or columns first, a sum is the same.
pub proof fn lemma_sums_turn(
    f: spec_fn(int, int) -> real,
    g: spec_fn(int, int) -> real,
    width: nat,
    j: nat,
)
    requires
        forall|l: int, i: int| 0 <= l < j && 0 <= i < width ==> #[trigger] f(l, i) == g(i, l),
    ensures
        plane_sum(f, width, j) == plane_sum(g, j, width),
    decreases width,
{
    if width == 0 {
        lemma_no_columns(f, j);
    } else {
        let w = (width - 1) as nat;
        lemma_sums_turn(f, g, w, j);
        lemma_column_is_added(f, w, j);
        let (a, b) = (|l: int| f(l, w as int), |l: int| g(w as int, l));
        assert forall|l: int| 0 <= l < j implies #[trigger] a(l) == b(l) by {
            assert(f(l, w as int) == g(w as int, l));
        }
        lemma_line_sums_agree(a, b, j);
    }
}

/// A fold of which each step adds an amount adds up all the amounts.
proof fn lemma_fold_run_adds<T, S>(
    rows: Seq<Seq<T>>,
    width: nat,
    init: S,
    step: spec_fn(S, int, int, T, S) -> bool,
    run: Seq<S>,
    measure: spec_fn(S) -> real,
    amount: spec_fn(int, int, T) -> real,
    j: nat,
    i: nat,
)
    requires
        is_fold_run(rows, width, init, step, run),
        forall|s: S, l: int, x: int, v: T, next: S| #[trigger]
            step(s, l, x, v, next) && 0 <= l < rows.len() && 0 <= x < width ==> measure(next)
                == measure(s) + amount(l, x, v),
        j < rows.len(),
        i <= width,
    ensures
        measure(run[flat(width as int, j as int, i as int)]) == measure(init) + plane_sum(
            |l: int, x: int| amount(l, x, rows[l][x]),
            width,
            j,
        ) + line_sum(|x: int| amount(j as int, x, rows[j as int][x]), i),
    decreases j, i,
{
    let f = |l: int, x: int| amount(l, x, rows[l][x]);
    let g = |x: int| amount(j as int, x, rows[j as int][x]);
    if i > 0 {
        let x = (i - 1) as nat;
        lemma_fold_run_adds(rows, width, init, step, run, measure, amount, j, x);
        let at = flat(width as int, j as int, x as int);
        assert(flat(width as int, j as int, i as int) == at + 1);
        assert(step(run[at], j as int, x as int, rows[j as int][x as int], run[at + 1]));
        assert(line_sum(g, i) == line_sum(g, x) + g(x as int));
    } else if j > 0 {
        let l = (j - 1) as nat;
        lemma_fold_run_adds(rows, width, init, step, run, measure, amount, l, width);
        assert(flat(width as int, j as int, 0) == flat(width as int, l as int, width as int))
            by (nonlinear_arith)
            requires
                l == j - 1,
        ;
        let h = |x: int| amount(l as int, x, rows[l as int][x]);
        lemma_line_sums_agree(|x: int| f(l as int, x), h, width);
    } else {
        assert(flat(width as int, 0, 0) == 0) by (nonlinear_arith);
    }
}

/// A fold of which each step adds an amount adds up the amounts of all samples.
pub proof fn lemma_fold_adds<T, S>(
    rows: Seq<Seq<T>>,
    width: nat,
    init: S,
    step: spec_fn(S, int, int, T, S) -> bool,
    out: S,
    measure: spec_fn(S) -> real,
    amount: spec_fn(int, int, T) -> real,
)
    requires
        is_fold(rows, width, init, step, out),
        forall|s: S, l: int, x: int, v: T, next: S| #[trigger]
            step(s, l, x, v, next) && 0 <= l < rows.len() && 0 <= x < width ==> measure(next)
                == measure(s) + amount(l, x, v),
    ensures
        measure(out) == measure(init) + plane_sum(
            |l: int, x: int| amount(l, x, rows[l][x]),
            width,
            rows.len(),
        ),
{
    let run = choose|run: Seq<S>| #[trigger]
        is_fold_run(rows, width, init, step, run) && run.last() == out;
    let f = |l: int, x: int| amount(l, x, rows[l][x]);
    if rows.len() == 0 {
        assert(0 * width == 0) by (nonlinear_arith);
        assert(run.len() == 1);
    } else {
        let l = (rows.len() - 1) as nat;
        lemma_fold_run_adds(rows, width, init, step, run, measure, amount, l, width);
        assert(flat(width as int, l as int, width as int) == rows.len() * width)
            by (nonlinear_arith)
            requires
                l == rows.len() - 1,
        ;
        assert(run.last() == run[flat(width as int, l as int, width as int)]);
        let h = |x: int| amount(l as int, x, rows[l as int][x]);
        lemma_line_sums_agree(|x: int| f(l as int, x), h, width);
    }
}

/// A tally is the sum of its terms.
pub proof fn lemma_tally_is_the_line_sum<R>(size: spec_fn(R) -> real, values: Seq<R>)
    ensures
        tally(size, values) == line_sum(|m: int| size(values[m]), values.len()),
    decreases values.len(),
{
    if values.len() > 0 {
        let head = values.drop_last();
        lemma_tally_is_the_line_sum(size, head);
        lemma_line_sums_agree(
            |m: int| size(head[m]),
            |m: int| size(values[m]),
            head.len(),
        );
    }
}

} // verus!

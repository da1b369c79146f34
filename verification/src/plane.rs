//! Rectangular arrays stored row by row.
use vstd::prelude::*;

verus! {

/// Position of row `j`, column `i` in a row-major array of `width` columns.
pub open spec fn flat(width: int, j: int, i: int) -> int {
    j * width + i
}

/// A position within the rectangle is within its storage.
pub proof fn lemma_flat_bound(height: int, width: int, j: int, i: int)
    requires
        0 <= j < height,
        0 <= i < width,
    ensures
        0 <= flat(width, j, i) < height * width,
        0 <= j * width <= flat(width, j, i),
        (j + 1) * width <= height * width,
{
    assert(0 <= j * width) by (nonlinear_arith)
        requires
            0 <= j,
            0 <= width,
    ;
    assert((j + 1) * width == j * width + width) by (nonlinear_arith);
    assert((j + 1) * width <= height * width) by (nonlinear_arith)
        requires
            j + 1 <= height,
            0 <= width,
    ;
}

/// Distinct positions are stored apart.
pub proof fn lemma_flat_injective(width: int, j: int, i: int, l: int, k: int)
    requires
        0 <= i < width,
        0 <= k < width,
        flat(width, j, i) == flat(width, l, k),
    ensures
        j == l,
        i == k,
{
    assert(j == l) by (nonlinear_arith)
        requires
            j * width + i == l * width + k,
            0 <= i < width,
            0 <= k < width,
    ;
}

/// The row and the column of a storage position.
pub proof fn lemma_flat_unflat(width: int, k: int)
    requires
        0 < width,
        0 <= k,
    ensures
        0 <= k / width,
        0 <= k % width < width,
        flat(width, k / width, k % width) == k,
{
    vstd::arithmetic::div_mod::lemma_fundamental_div_mod(k, width);
    vstd::arithmetic::div_mod::lemma_mod_bound(k, width);
    vstd::arithmetic::div_mod::lemma_div_pos_is_pos(k, width);
    assert(width * (k / width) == (k / width) * width) by (nonlinear_arith);
}

/// A rectangular array, row-major.
#[derive(Debug, PartialEq)]
pub struct Plane<T> {
    height: usize,
    width: usize,
    data: Vec<T>,
}

impl<T> View for Plane<T> {
    type V = Seq<Seq<T>>;

    /// The rows, each a sequence of its columns.
    closed spec fn view(&self) -> Seq<Seq<T>> {
        Seq::new(
            self.height as nat,
            |j: int| Seq::new(self.width as nat, |i: int| self.data@[flat(self.width as int, j, i)]),
        )
    }
}

impl<T> Plane<T> {
    /// Number of columns.
    pub closed spec fn spec_width(&self) -> nat {
        self.width as nat
    }

    /// The storage in row-major order.
    pub closed spec fn stored(&self) -> Seq<T> {
        self.data@
    }

    /// The storage holds the rectangle and nothing else.
    pub open spec fn wf(&self) -> bool {
        &&& self.stored().len() == self@.len() * self.spec_width()
        &&& self.stored().len() <= usize::MAX
        &&& self@.len() <= usize::MAX
        &&& self.spec_width() <= usize::MAX
        &&& forall|j: int| 0 <= j < self@.len() ==> #[trigger] self@[j].len() == self.spec_width()
        &&& forall|j: int, i: int|
            0 <= j < self@.len() && 0 <= i < self.spec_width() ==> #[trigger] self@[j][i]
                == self.stored()[flat(self.spec_width() as int, j, i)]
    }

    /// An array over row-major data; `None` unless the lengths agree.
    pub fn from_vec(height: usize, width: usize, data: Vec<T>) -> (r: Option<Self>)
        ensures
            r is Some <==> data@.len() == height * width,
            r matches Some(p) ==> p.wf() && p@.len() == height && p.spec_width() == width
                && p.stored() == data@,
    {
        let len: usize = data.len();
        match height.checked_mul(width) {
            Some(n) => if n == len {
                Some(Plane { height, width, data })
            } else {
                None
            },
            None => None,
        }
    }

    /// The array whose entry in row `j`, column `i` is `f(j, i)`.
    pub fn from_fn<F: Fn(usize, usize) -> T>(height: usize, width: usize, f: F) -> (p: Self)
        requires
            height * width <= usize::MAX,
            forall|j: usize, i: usize|
                j < height && i < width ==> #[trigger] call_requires(f, (j, i)),
        ensures
            p.wf(),
            p@.len() == height,
            p.spec_width() == width,
            forall|j: int, i: int|
                0 <= j < height && 0 <= i < width ==> call_ensures(
                    f,
                    (j as usize, i as usize),
                    #[trigger] p@[j][i],
                ),
    {
        let mut data: Vec<T> = Vec::with_capacity(height * width);
        proof {
            assert(0 * width == 0) by (nonlinear_arith);
        }
        for j in 0..height
            invariant
                height * width <= usize::MAX,
                data@.len() == j * width,
                forall|j: usize, i: usize|
                    j < height && i < width ==> #[trigger] call_requires(f, (j, i)),
                forall|l: int, k: int|
                    0 <= l < j && 0 <= k < width ==> call_ensures(
                        f,
                        (l as usize, k as usize),
                        data@[#[trigger] flat(width as int, l, k)],
                    ),
        {
            for i in 0..width
                invariant
                    j < height,
                    height * width <= usize::MAX,
                    data@.len() == flat(width as int, j as int, i as int),
                    forall|j: usize, i: usize|
                        j < height && i < width ==> #[trigger] call_requires(f, (j, i)),
                    forall|l: int, k: int|
                        (0 <= l < j && 0 <= k < width) || (l == j && 0 <= k < i) ==> call_ensures(
                            f,
                            (l as usize, k as usize),
                            data@[#[trigger] flat(width as int, l, k)],
                        ),
            {
                let v: T = f(j, i);
                let ghost before = data@;
                data.push(v);
                proof {
                    assert forall|l: int, k: int|
                        (0 <= l < j && 0 <= k < width) || (l == j && 0 <= k < i + 1) implies
                        call_ensures(
                        f,
                        (l as usize, k as usize),
                        data@[#[trigger] flat(width as int, l, k)],
                    ) by {
                        if l < j {
                            lemma_flat_bound(j as int, width as int, l, k);
                            assert(j * width <= flat(width as int, j as int, i as int));
                        }
                        if l == j && k == i {
                        } else {
                            assert(0 <= flat(width as int, l, k) < before.len()) by {
                                if l == j {
                                    assert(0 <= j * width) by (nonlinear_arith)
                                        requires
                                            0 <= j,
                                            0 <= width,
                                    ;
                                }
                            }
                        }
                    }
                }
            }
            proof {
                assert((j + 1) * width == flat(width as int, j as int, width as int))
                    by (nonlinear_arith)
                    requires
                        flat(width as int, j as int, width as int) == j * width + width,
                ;
            }
        }
        Plane { height, width, data }
    }

    /// Number of rows.
    pub fn height(&self) -> (n: usize)
        ensures
            n == self@.len(),
    {
        self.height
    }

    /// Number of columns.
    pub fn width(&self) -> (n: usize)
        ensures
            n == self.spec_width(),
    {
        self.width
    }

    /// The entries in row-major order.
    pub fn as_slice(&self) -> (s: &[T])
        ensures
            s@ == self.stored(),
    {
        self.data.as_slice()
    }

    /// The entry in row `j`, column `i`.
    pub fn at(&self, j: usize, i: usize) -> (v: &T)
        requires
            self.wf(),
            j < self@.len(),
            i < self.spec_width(),
        ensures
            *v == self@[j as int][i as int],
    {
        proof {
            lemma_flat_bound(self.height as int, self.width as int, j as int, i as int);
        }
        &self.data[j * self.width + i]
    }

    /// Replace the entry in row `j`, column `i`.
    pub fn set(&mut self, j: usize, i: usize, v: T)
        requires
            old(self).wf(),
            j < old(self)@.len(),
            i < old(self).spec_width(),
        ensures
            final(self).wf(),
            final(self).spec_width() == old(self).spec_width(),
            final(self)@ == old(self)@.update(
                j as int,
                old(self)@[j as int].update(i as int, v),
            ),
    {
        proof {
            lemma_flat_bound(self.height as int, self.width as int, j as int, i as int);
        }
        let k: usize = j * self.width + i;
        self.data.set(k, v);
        proof {
            let w = self.width as int;
            assert forall|l: int, m: int|
                0 <= l < self.height && 0 <= m < w && !(l == j && m == i) implies #[trigger] flat(
                w,
                l,
                m,
            ) != k by {
                if flat(w, l, m) == flat(w, j as int, i as int) {
                    lemma_flat_injective(w, l, m, j as int, i as int);
                }
            }
            assert forall|l: int, m: int| 0 <= l < self.height && 0 <= m < w implies 0 <= #[trigger]
            flat(w, l, m) < self.data@.len() by {
                lemma_flat_bound(self.height as int, w, l, m);
            }
            let want = old(self)@.update(j as int, old(self)@[j as int].update(i as int, v));
            assert forall|l: int| 0 <= l < self@.len() implies #[trigger] self@[l] == want[l] by {
                assert(self@[l] =~= want[l]);
            }
            assert(self@ =~= want);
        }
    }
}

impl<T: Copy> Plane<T> {
    /// A copy of row `j`.
    pub fn row(&self, j: usize) -> (v: Vec<T>)
        requires
            self.wf(),
            j < self@.len(),
        ensures
            v@ == self@[j as int],
    {
        let mut v: Vec<T> = Vec::with_capacity(self.width);
        for i in 0..self.width
            invariant
                self.wf(),
                j < self@.len(),
                v@ == self@[j as int].subrange(0, i as int),
        {
            v.push(*self.at(j, i));
            proof {
                assert(self@[j as int].subrange(0, i + 1) =~= self@[j as int].subrange(
                    0,
                    i as int,
                ).push(self@[j as int][i as int]));
            }
        }
        proof {
            assert(self@[j as int].subrange(0, self.width as int) =~= self@[j as int]);
        }
        v
    }

    /// A copy of column `i`.
    pub fn column(&self, i: usize) -> (v: Vec<T>)
        requires
            self.wf(),
            i < self.spec_width(),
        ensures
            v@ == column_of(self@, i as int),
    {
        let mut v: Vec<T> = Vec::with_capacity(self.height);
        for j in 0..self.height
            invariant
                self.wf(),
                i < self.spec_width(),
                v@.len() == j,
                forall|l: int| 0 <= l < j ==> #[trigger] v@[l] == self@[l][i as int],
        {
            v.push(*self.at(j, i));
        }
        proof {
            assert(v@ =~= column_of(self@, i as int));
        }
        v
    }

    /// Replace row `j`.
    pub fn set_row(&mut self, j: usize, line: &[T])
        requires
            old(self).wf(),
            j < old(self)@.len(),
            line@.len() == old(self).spec_width(),
        ensures
            final(self).wf(),
            final(self).spec_width() == old(self).spec_width(),
            final(self)@ == old(self)@.update(j as int, line@),
    {
        for i in 0..line.len()
            invariant
                self.wf(),
                self.spec_width() == old(self).spec_width(),
                line@.len() == self.spec_width(),
                j < self@.len(),
                self@.len() == old(self)@.len(),
                forall|l: int| 0 <= l < self@.len() && l != j ==> #[trigger] self@[l] == old(self)@[l],
                self@[j as int].subrange(0, i as int) == line@.subrange(0, i as int),
        {
            let ghost before = self@[j as int];
            self.set(j, i, line[i]);
            proof {
                assert(self@[j as int].subrange(0, i + 1) =~= line@.subrange(0, i + 1)) by {
                    assert forall|k: int| 0 <= k < i implies self@[j as int][k] == line@[k] by {
                        assert(before.subrange(0, i as int)[k] == line@.subrange(0, i as int)[k]);
                    }
                }
            }
        }
        proof {
            let n = line@.len() as int;
            assert(self@[j as int].subrange(0, n) =~= self@[j as int]);
            assert(line@.subrange(0, n) =~= line@);
            assert(self@ =~= old(self)@.update(j as int, line@));
        }
    }

    /// Replace column `i`.
    pub fn set_column(&mut self, i: usize, line: &[T])
        requires
            old(self).wf(),
            i < old(self).spec_width(),
            line@.len() == old(self)@.len(),
        ensures
            final(self).wf(),
            final(self).spec_width() == old(self).spec_width(),
            final(self)@ == with_column(old(self)@, i as int, line@),
    {
        for j in 0..line.len()
            invariant
                self.wf(),
                self.spec_width() == old(self).spec_width(),
                i < self.spec_width(),
                self@.len() == old(self)@.len(),
                line@.len() == self@.len(),
                forall|l: int|
                    0 <= l < self@.len() ==> #[trigger] self@[l] == (if l < j {
                        old(self)@[l].update(i as int, line@[l])
                    } else {
                        old(self)@[l]
                    }),
        {
            self.set(j, i, line[j]);
        }
        proof {
            assert(self@ =~= with_column(old(self)@, i as int, line@));
        }
    }
}

impl<T> Plane<T> {
    /// Whether the array is sound and of this shape.
    pub fn has_shape(&self, height: usize, width: usize) -> (b: bool)
        ensures
            b == (self.wf() && self@.len() == height && self.spec_width() == width),
    {
        let len: usize = self.data.len();
        let sound: bool = match self.height.checked_mul(self.width) {
            Some(n) => n == len,
            None => false,
        };
        sound && self.height == height && self.width == width
    }
}

impl<T: Copy> Plane<T> {
    /// An array with one value everywhere.
    pub fn filled(height: usize, width: usize, value: T) -> (p: Self)
        requires
            height * width <= usize::MAX,
        ensures
            p.wf(),
            p@.len() == height,
            p.spec_width() == width,
            forall|j: int, i: int|
                0 <= j < height && 0 <= i < width ==> #[trigger] p@[j][i] == value,
    {
        let f = |_j: usize, _i: usize| -> (v: T)
            ensures
                v == value,
            { value };
        Self::from_fn(height, width, f)
    }

    /// Map an array entry by entry.
    pub fn map<U, F: Fn(T) -> U + Copy>(&self, f: F) -> (p: Plane<U>)
        requires
            self.wf(),
            forall|v: T| #[trigger] call_requires(f, (v,)),
        ensures
            p.wf(),
            p@.len() == self@.len(),
            p.spec_width() == self.spec_width(),
            forall|j: int, i: int|
                0 <= j < p@.len() && 0 <= i < p.spec_width() ==> call_ensures(
                    f,
                    (self@[j][i],),
                    #[trigger] p@[j][i],
                ),
    {
        let g = |j: usize, i: usize| -> (u: U)
            requires
                j < self@.len(),
                i < self.spec_width(),
            ensures
                call_ensures(f, (self@[j as int][i as int],), u),
            { f(*self.at(j, i)) };
        Plane::from_fn(self.height, self.width, g)
    }

    /// Combine two arrays of one shape entry by entry.
    pub fn zip_map<U: Copy, V, F: Fn(T, U) -> V + Copy>(&self, other: &Plane<U>, f: F) -> (p: Plane<V>)
        requires
            self.wf(),
            other.wf(),
            other@.len() == self@.len(),
            other.spec_width() == self.spec_width(),
            forall|v: T, u: U| #[trigger] call_requires(f, (v, u)),
        ensures
            p.wf(),
            p@.len() == self@.len(),
            p.spec_width() == self.spec_width(),
            forall|j: int, i: int|
                0 <= j < p@.len() && 0 <= i < p.spec_width() ==> call_ensures(
                    f,
                    (self@[j][i], other@[j][i]),
                    #[trigger] p@[j][i],
                ),
    {
        let g = |j: usize, i: usize| -> (w: V)
            requires
                j < self@.len(),
                i < self.spec_width(),
            ensures
                call_ensures(f, (self@[j as int][i as int], other@[j as int][i as int]), w),
            { f(*self.at(j, i), *other.at(j, i)) };
        Plane::from_fn(self.height, self.width, g)
    }

    /// Fold an array row by row from the first entry.
    pub fn fold<S: Copy, F: Fn(S, usize, usize, T) -> S>(&self, init: S, f: F) -> (out: S)
        requires
            self.wf(),
            forall|s: S, j: usize, i: usize, v: T|
                j < self@.len() && i < self.spec_width() ==> #[trigger] call_requires(
                    f,
                    (s, j, i, v),
                ),
        ensures
            is_fold(self@, self.spec_width(), init, steps_of(f), out),
    {
        let ghost width = self.width as int;
        let ghost step = steps_of::<T, S, F>(f);
        let mut state: S = init;
        let ghost mut run: Seq<S> = seq![state];
        let len: usize = self.data.len();
        for k in 0..len
            invariant
                self.wf(),
                len == self.data@.len(),
                width == self.width,
                step == steps_of::<T, S, F>(f),
                forall|s: S, j: usize, i: usize, v: T|
                    j < self@.len() && i < self.spec_width() ==> #[trigger] call_requires(
                        f,
                        (s, j, i, v),
                    ),
                run.len() == k + 1,
                run[0] == init,
                run.last() == state,
                forall|j: int, i: int|
                    0 <= j < self@.len() && 0 <= i < width && #[trigger] flat(width, j, i) < k
                        ==> step(
                        run[flat(width, j, i)],
                        j,
                        i,
                        self@[j][i],
                        run[flat(width, j, i) + 1],
                    ),
        {
            proof {
                let h = self.height as int;
                assert(width > 0) by (nonlinear_arith)
                    requires
                        h * width > 0,
                        h >= 0,
                        width >= 0,
                ;
                lemma_flat_unflat(width, k as int);
                assert(k as int / width < h) by (nonlinear_arith)
                    requires
                        (k as int / width) * width + k as int % width == k,
                        k < h * width,
                        k as int % width >= 0,
                        width > 0,
                ;
            }
            let j: usize = k / self.width;
            let i: usize = k % self.width;
            let v: T = *self.at(j, i);
            let next: S = f(state, j, i, v);
            proof {
                assert(step(state, j as int, i as int, v, next));
                let run2 = run.push(next);
                assert forall|l: int, m: int|
                    0 <= l < self@.len() && 0 <= m < width && #[trigger] flat(width, l, m) < k
                        + 1 implies step(
                    run2[flat(width, l, m)],
                    l,
                    m,
                    self@[l][m],
                    run2[flat(width, l, m) + 1],
                ) by {
                    lemma_flat_bound(self.height as int, width, l, m);
                    if flat(width, l, m) == k {
                        lemma_flat_injective(width, l, m, j as int, i as int);
                    }
                }
                run = run2;
            }
            state = next;
        }
        proof {
            assert forall|j: int, i: int|
                0 <= j < self@.len() && 0 <= i < width implies step(
                run[#[trigger] flat(width, j, i)],
                j,
                i,
                self@[j][i],
                run[flat(width, j, i) + 1],
            ) by {
                lemma_flat_bound(self.height as int, width, j, i);
            }
            assert(is_fold_run(self@, self.spec_width(), init, step, run));
        }
        state
    }
}

/// The steps that a fold closure may take.
pub open spec fn steps_of<T, S, F: Fn(S, usize, usize, T) -> S>(f: F) -> spec_fn(
    S,
    int,
    int,
    T,
    S,
) -> bool {
    |s: S, j: int, i: int, v: T, next: S| call_ensures(f, (s, j as usize, i as usize, v), next)
}

/// `run[k]` is the state of a fold before the entry stored at `k`.
pub open spec fn is_fold_run<T, S>(
    rows: Seq<Seq<T>>,
    width: nat,
    init: S,
    step: spec_fn(S, int, int, T, S) -> bool,
    run: Seq<S>,
) -> bool {
    &&& run.len() == rows.len() * width + 1
    &&& run[0] == init
    &&& forall|j: int, i: int|
        0 <= j < rows.len() && 0 <= i < width ==> step(
            run[#[trigger] flat(width as int, j, i)],
            j,
            i,
            rows[j][i],
            run[flat(width as int, j, i) + 1],
        )
}

/// `out` is a row-by-row fold of an array of `width` columns.
pub open spec fn is_fold<T, S>(
    rows: Seq<Seq<T>>,
    width: nat,
    init: S,
    step: spec_fn(S, int, int, T, S) -> bool,
    out: S,
) -> bool {
    exists|run: Seq<S>| #[trigger] is_fold_run(rows, width, init, step, run) && run.last() == out
}

/// A fold by some steps is a fold by any that allow those steps.
pub proof fn lemma_fold_widens<T, S>(
    rows: Seq<Seq<T>>,
    width: nat,
    init: S,
    narrow: spec_fn(S, int, int, T, S) -> bool,
    wide: spec_fn(S, int, int, T, S) -> bool,
    out: S,
)
    requires
        forall|s: S, j: int, i: int, v: T, next: S| #[trigger]
            narrow(s, j, i, v, next) && 0 <= j < rows.len() && 0 <= i < width ==> wide(
                s,
                j,
                i,
                v,
                next,
            ),
        is_fold(rows, width, init, narrow, out),
    ensures
        is_fold(rows, width, init, wide, out),
{
    let run = choose|run: Seq<S>| #[trigger]
        is_fold_run(rows, width, init, narrow, run) && run.last() == out;
    assert forall|j: int, i: int| 0 <= j < rows.len() && 0 <= i < width implies wide(
        run[#[trigger] flat(width as int, j, i)],
        j,
        i,
        rows[j][i],
        run[flat(width as int, j, i) + 1],
    ) by {
        assert(narrow(
            run[flat(width as int, j, i)],
            j,
            i,
            rows[j][i],
            run[flat(width as int, j, i) + 1],
        ));
    }
    assert(is_fold_run(rows, width, init, wide, run));
}

/// Column `i` of an array.
pub open spec fn column_of<T>(rows: Seq<Seq<T>>, i: int) -> Seq<T> {
    Seq::new(rows.len(), |j: int| rows[j][i])
}

/// An array with column `i` replaced.
pub open spec fn with_column<T>(rows: Seq<Seq<T>>, i: int, line: Seq<T>) -> Seq<Seq<T>> {
    Seq::new(rows.len(), |j: int| rows[j].update(i, line[j]))
}

} // verus!

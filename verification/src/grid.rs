//! Transverse grid geometry in samples: which sample is the origin, where a
//! sample sits about it, and where a frequency sits in the transform's order.
use crate::optics::Optics;
use vstd::prelude::*;

verus! {

/// A square grid of `n` samples per side, `dx` apart.
///
/// Sample `n / 2` sits at the origin. `n` is even: the centring, the central
/// slice and the order of the frequencies all put the origin at that sample
/// exactly, and an odd grid would shift it by half a sample.
#[derive(Debug, Clone, Copy, PartialEq)]
pub struct Grid<R> {
    /// Samples per side.
    pub n: usize,
    /// Sample spacing.
    pub dx: R,
}

/// Why a grid is refused.
#[derive(Debug, Clone, Copy, PartialEq, Eq, Structural)]
pub enum GridError {
    /// The size is zero or odd.
    BadSize { n: usize },
    /// The spacing is not positive and finite.
    BadSpacing,
}

/// A size that a grid may have.
pub open spec fn is_grid_size(n: int) -> bool {
    n > 0 && n % 2 == 0
}

/// Signed distance of sample `i` from the origin, in samples.
pub open spec fn offset_of(n: int, i: int) -> int {
    i - n / 2
}

/// Signed frequency at position `i` of a transform of length `n`.
pub open spec fn frequency_of(n: int, i: int) -> int {
    if i <= n / 2 {
        i
    } else {
        i - n
    }
}

/// The sample that a half-turn of the grid brings to position `i`.
pub open spec fn shifted_of(n: int, i: int) -> int {
    (i + n / 2) % n
}

/// Whether a size and a spacing make a grid; the size is looked at first.
/// `spacing_is_valid` is whether the spacing is positive and finite.
pub fn checked_grid<R>(n: usize, dx: R, spacing_is_valid: bool) -> (r: Result<Grid<R>, GridError>)
    ensures
        match r {
            Ok(g) => is_grid_size(n as int) && spacing_is_valid && g == (Grid { n, dx }),
            Err(GridError::BadSize { n: m }) => !is_grid_size(n as int) && m == n,
            Err(GridError::BadSpacing) => is_grid_size(n as int) && !spacing_is_valid,
        },
{
    if n == 0 || n % 2 != 0 {
        return Err(GridError::BadSize { n });
    }
    if !spacing_is_valid {
        return Err(GridError::BadSpacing);
    }
    Ok(Grid { n, dx })
}

impl<R: Copy> Grid<R> {
    /// A grid of `n` samples per side, `dx` apart.
    pub fn new<K: Optics<Real = R>>(optics: &K, n: usize, dx: R) -> (g: Self)
        requires
            is_grid_size(n as int),
            call_ensures(K::is_positive, (optics, dx), true),
        ensures
            g == (Grid { n, dx }),
    {
        Grid { n, dx }
    }

    /// Signed distance of sample `i` from the origin, in samples.
    pub fn offset(&self, i: usize) -> (d: isize)
        requires
            i < self.n,
            self.n <= isize::MAX,
        ensures
            d == offset_of(self.n as int, i as int),
    {
        i as isize - (self.n / 2) as isize
    }

    /// Signed frequency at position `i` of the transform's order.
    pub fn frequency(&self, i: usize) -> (f: isize)
        requires
            i < self.n,
            self.n <= isize::MAX,
        ensures
            f == frequency_of(self.n as int, i as int),
    {
        if i <= self.n / 2 {
            i as isize
        } else {
            i as isize - self.n as isize
        }
    }

    /// The sample at position `i` once the origin is rolled to position zero.
    pub fn shifted(&self, i: usize) -> (k: usize)
        requires
            i < self.n,
            self.n <= isize::MAX,
        ensures
            k == shifted_of(self.n as int, i as int),
            k < self.n,
    {
        (i + self.n / 2) % self.n
    }
}

/// The origin is sample `n / 2`, and only that one.
pub proof fn law_origin_is_centred(n: int, i: int)
    requires
        is_grid_size(n),
        0 <= i < n,
    ensures
        offset_of(n, i) == 0 <==> i == n / 2,
{
}

/// The samples reach as far below the origin as above it, but for the one at
/// the lower edge, which has no mirror image.
pub proof fn law_offsets_are_symmetric(n: int, i: int)
    requires
        is_grid_size(n),
        0 < i < n,
    ensures
        0 < n - i < n,
        offset_of(n, n - i) == -offset_of(n, i),
{
}

/// Rolling an even grid by half its size twice gives it back.
pub proof fn law_shift_is_its_own_inverse(n: int, i: int)
    requires
        is_grid_size(n),
        0 <= i < n,
    ensures
        0 <= shifted_of(n, i) < n,
        shifted_of(n, shifted_of(n, i)) == i,
{
    let h = n / 2;
    if i < h {
        vstd::arithmetic::div_mod::lemma_small_mod((i + h) as nat, n as nat);
        assert((i + h + h) % n == i) by (nonlinear_arith)
            requires
                h + h == n,
                0 <= i < n,
        ;
    } else {
        assert((i + h) % n == i - h) by (nonlinear_arith)
            requires
                h + h == n,
                h <= i < n,
        ;
        vstd::arithmetic::div_mod::lemma_small_mod(i as nat, n as nat);
    }
}

/// After the roll, the origin is at position zero.
pub proof fn law_shift_brings_the_origin_first(n: int)
    requires
        is_grid_size(n),
    ensures
        offset_of(n, shifted_of(n, 0)) == 0,
{
    vstd::arithmetic::div_mod::lemma_small_mod((n / 2) as nat, n as nat);
}

/// Each frequency of the transform is that of one position only, and stands for
/// its position modulo the length.
pub proof fn law_frequencies_are_distinct(n: int, i: int, k: int)
    requires
        is_grid_size(n),
        0 <= i < n,
        0 <= k < n,
    ensures
        -n / 2 < frequency_of(n, i) <= n / 2,
        frequency_of(n, i) == i || frequency_of(n, i) == i - n,
        frequency_of(n, i) == frequency_of(n, k) ==> i == k,
{
}

} // verus!

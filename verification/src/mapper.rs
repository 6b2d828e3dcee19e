use vstd::arithmetic::div_mod::{lemma_div_is_ordered, lemma_fundamental_div_mod_converse};
use vstd::prelude::*;

verus! {

/// The pixel index that a data-space value maps to: the floor of the linear
/// interpolation of `value` between `lo` and `hi`, scaled to `n` pixels.
pub open spec fn spec_to_pixel(value: int, lo: int, hi: int, n: int) -> int {
    ((value - lo) * n) / (hi - lo)
}

/// The data-space value at the start of pixel `index`: the linear inverse of
/// `spec_to_pixel`, rounded down.
pub open spec fn spec_to_domain(index: int, lo: int, hi: int, n: int) -> int {
    lo + (index * (hi - lo)) / n
}

/// A nonnegative quantity below `n * d` stays below `n` after division by `d`.
pub proof fn lemma_div_below(x: int, n: int, d: int)
    requires
        0 <= x,
        0 < d,
        x < n * d,
    ensures
        x / d < n,
{
    assert(n * d - 1 == (n - 1) * d + (d - 1)) by (nonlinear_arith);
    lemma_fundamental_div_mod_converse(n * d - 1, d, n - 1, d - 1);
    lemma_div_is_ordered(x, n * d - 1, d);
}

/// Maps a data-space value strictly inside `(lo, hi)` to a pixel index,
/// always landing in `0 .. n`.
pub fn to_pixel(value: i64, lo: i64, hi: i64, n: usize) -> (r: usize)
    requires
        lo < value < hi,
        n >= 1,
        (hi - lo) * n <= i64::MAX,
    ensures
        r == spec_to_pixel(value as int, lo as int, hi as int, n as int),
        r < n,
{
    proof {
        assert((hi - lo) * 1 <= (hi - lo) * (n as int)) by (nonlinear_arith)
            requires 1 <= n, 0 < hi - lo;
        assert(1 * (n as int) <= (hi - lo) * (n as int)) by (nonlinear_arith)
            requires 1 <= n, 1 <= hi - lo;
        assert((value - lo) * (n as int) <= (hi - lo) * (n as int)) by (nonlinear_arith)
            requires value <= hi, 0 <= n;
        assert((value - lo) * (n as int) < (hi - lo) * (n as int)) by (nonlinear_arith)
            requires value < hi, 0 < n;
        assert(0 <= (value - lo) * (n as int)) by (nonlinear_arith)
            requires lo <= value, 0 <= n;
    }
    let span: u64 = (hi - lo) as u64;
    let offset: u64 = (value - lo) as u64;
    let scaled: u64 = offset * (n as u64);
    let q: u64 = scaled / span;
    proof {
        assert((n as int) * (span as int) == (span as int) * (n as int)) by (nonlinear_arith);
        lemma_div_below(scaled as int, n as int, span as int);
    }
    q as usize
}

/// The data-space value at the left edge of column (or row) `index` of an axis
/// of `n` pixels spanning `(lo, hi)`; it never leaves `[lo, hi]`.
pub fn to_domain(index: usize, lo: i64, hi: i64, n: usize) -> (r: i64)
    requires
        lo < hi,
        n >= 1,
        index <= n,
        (hi - lo) * n <= i64::MAX,
    ensures
        r == spec_to_domain(index as int, lo as int, hi as int, n as int),
        lo <= r <= hi,
{
    proof {
        assert((hi - lo) * 1 <= (hi - lo) * (n as int)) by (nonlinear_arith)
            requires 1 <= n, 0 < hi - lo;
        assert(0 <= (index as int) * (hi - lo) <= (hi - lo) * (n as int)) by (nonlinear_arith)
            requires 0 <= index <= n, 0 < hi - lo;
        assert((hi - lo) * (n as int) < ((hi - lo) + 1) * (n as int)) by (nonlinear_arith)
            requires 0 < n;
        lemma_div_below((index as int) * (hi - lo), (hi - lo) + 1, n as int);
        assert(0 <= ((index as int) * (hi - lo)) / (n as int)) by {
            vstd::arithmetic::div_mod::lemma_div_pos_is_pos((index as int) * (hi - lo), n as int);
        }
    }
    let scaled: u64 = (index as u64) * ((hi - lo) as u64);
    let q: u64 = scaled / (n as u64);
    lo + (q as i64)
}

} // verus!

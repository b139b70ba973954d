//! The edge threshold as a share of the levels above 0.
//!
//! The threshold is taken from a histogram whose bins divide the range up to the
//! largest level evenly, so it is exact to the width of a bin.

use crate::edge::{
    bin_of, bin_scale, bins_of, count_from, cut, cut_keeps_the_quota, peak, peak_is_greatest,
    percentile, quota, BINS,
};
use crate::number::{Arithmetic, Single, ONE, ZERO};
use crate::range::is_finite;
use crate::shape::{lemma_diff, lemma_quot, lemma_rounded_size, lemma_tiny};
use crate::value::{
    converts_closely, converts_exactly, is_floor, is_rounded, lemma_large, lemma_scale_numbers,
    lemma_value_units, rounds_closely, scale, to_usize_is, value, values_are_ordered,
};
use crate::whole::size;
use vstd::prelude::*;

verus! {

/// How many levels are `x` or higher.
pub open spec fn count_at_least(levels: Seq<Single>, x: real) -> int
    decreases levels.len(),
{
    if levels.len() == 0 {
        0
    } else {
        count_at_least(levels.drop_last(), x) + if value(levels.last()) >= x {
            1int
        } else {
            0
        }
    }
}

/// How many levels are above 0.
pub open spec fn count_positive(levels: Seq<Single>) -> int
    decreases levels.len(),
{
    if levels.len() == 0 {
        0
    } else {
        count_positive(levels.drop_last()) + if value(levels.last()) > 0real {
            1int
        } else {
            0
        }
    }
}

/// All levels are finite, from 0 to `top`.
pub open spec fn reach_up_to(levels: Seq<Single>, top: real) -> bool {
    forall|k: int|
        0 <= k < levels.len() ==> is_finite(#[trigger] levels[k]) && 0real <= value(levels[k])
            <= top
}

proof fn lemma_count_at_most(levels: Seq<Single>, bins: Seq<int>, b: int, x: real)
    requires
        bins.len() == levels.len(),
        forall|k: int|
            0 <= k < levels.len() && bins[k] >= b ==> value(#[trigger] levels[k]) >= x,
    ensures
        count_from(bins, b) <= count_at_least(levels, x),
    decreases levels.len(),
{
    if levels.len() > 0 {
        let (l, c) = (levels.drop_last(), bins.drop_last());
        assert(value(levels[levels.len() - 1]) == value(levels.last()));
        assert forall|k: int| 0 <= k < l.len() && c[k] >= b implies value(#[trigger] l[k]) >= x by {
            assert(value(levels[k]) == value(l[k]));
        }
        lemma_count_at_most(l, c, b, x);
    }
}

proof fn lemma_count_covers(levels: Seq<Single>, bins: Seq<int>, b: int, x: real)
    requires
        bins.len() == levels.len(),
        forall|k: int|
            0 <= k < levels.len() && value(#[trigger] levels[k]) >= x ==> bins[k] >= b,
    ensures
        count_at_least(levels, x) <= count_from(bins, b),
    decreases levels.len(),
{
    if levels.len() > 0 {
        let (l, c) = (levels.drop_last(), bins.drop_last());
        assert(value(levels[levels.len() - 1]) == value(levels.last()));
        assert forall|k: int| 0 <= k < l.len() && value(#[trigger] l[k]) >= x implies c[k] >= b by {
            assert(value(levels[k]) == value(l[k]));
        }
        lemma_count_covers(l, c, b, x);
    }
}

proof fn lemma_count_all<A: Arithmetic>(levels: Seq<Single>, s: Single, top: real)
    requires
        reach_up_to(levels, top),
    ensures
        count_from(bins_of::<A>(s, levels), 0) == count_positive(levels),
    decreases levels.len(),
{
    if levels.len() > 0 {
        let l: Seq<Single> = levels.drop_last();
        lemma_value_units();
        assert(is_finite(levels[levels.len() - 1]));
        values_are_ordered(Single::of(ZERO), levels.last());
        assert forall|k: int| 0 <= k < l.len() implies is_finite(#[trigger] l[k]) && 0real <= value(
            l[k],
        ) <= top by {
            assert(l[k] == levels[k]);
        }
        lemma_count_all::<A>(l, s, top);
        assert(bins_of::<A>(s, levels).drop_last() =~= bins_of::<A>(s, l));
    }
}

/// Bins per unit of level, times the largest level.
proof fn lemma_bins_per_level<A: Arithmetic>(top: Single)
    requires
        rounds_closely::<A>(),
        converts_exactly::<A>(),
        is_finite(top),
        1real / 1024real <= value(top) <= 16777216real,
    ensures
        is_finite(bin_scale::<A>(top)),
        0real < value(bin_scale::<A>(top)) <= 262144real,
        size(value(bin_scale::<A>(top)) * value(top) - 255real) <= 1real / 10000real,
{
    lemma_value_units();
    lemma_tiny();
    lemma_scale_numbers();
    let n: Single = A::from_usize_of(BINS);
    assert(is_finite(n) && value(n) == 256real) by {
        reveal(converts_exactly);
        assert((256usize as int) as real == 256real);
    }
    let k: Single = A::diff_of(n, Single::of(ONE));
    lemma_diff::<A>(n, Single::of(ONE), 256real, 1real, 0real, 0real, 256real);
    let (p, y) = (value(k), value(top));
    assert(p <= (1048576real * 1048576real * 1048576real * 1048576real) * y) by (nonlinear_arith)
        requires
            p <= 256real,
            1real / 1024real <= y,
    ;
    lemma_quot::<A>(k, top);
    let e = scale(-149);
    assert(y * e <= 134217729real * e) by (nonlinear_arith)
        requires
            y <= 134217729real,
            0real < e,
    ;
    let s = value(bin_scale::<A>(top));
    assert(0real < s && s <= 262144real) by (nonlinear_arith)
        requires
            254real <= s * y,
            s * y <= 256real,
            1real / 1024real <= y,
    ;
}

/// The place of a level among the bins.
proof fn lemma_bin<A: Arithmetic>(level: Single, s: Single, x: real)
    requires
        rounds_closely::<A>(),
        converts_exactly::<A>(),
        is_finite(level),
        is_finite(s),
        0real < value(level),
        0real < value(s),
        x == value(level) * value(s),
        x <= 256real,
    ensures
        0 <= bin_of::<A>(s, level) <= 255,
        bin_of::<A>(s, level) as real <= x + 1real / 10000real,
        x < bin_of::<A>(s, level) as real + 1real + 1real / 10000real || bin_of::<A>(s, level) == 255,
{
    lemma_large();
    lemma_scale_numbers();
    lemma_tiny();
    lemma_value_units();
    values_are_ordered(Single::of(ZERO), level);
    let (a, b) = (value(level), value(s));
    assert(0real <= x) by (nonlinear_arith)
        requires
            x == a * b,
            0real < a,
            0real < b,
    ;
    let r: Single = A::prod_of(level, s);
    assert(is_rounded(r, x)) by {
        reveal(rounds_closely);
    }
    lemma_rounded_size(x, scale(-24));
    let n: int = lemma_floor(value(r), 300);
    assert(A::to_usize_of(r) == n) by {
        reveal(converts_exactly);
        assert(to_usize_is::<A>(r, n as usize));
    }
}

/// A number that is not large has a floor.
proof fn lemma_floor(x: real, limit: int) -> (n: int)
    requires
        0real <= x <= limit as real,
        0 <= limit,
    ensures
        is_floor(x, n),
        0 <= n <= limit,
{
    lemma_floor_from(x, 0, limit)
}

proof fn lemma_floor_from(x: real, k: int, limit: int) -> (n: int)
    requires
        k as real <= x <= limit as real,
        0 <= k <= limit,
    ensures
        is_floor(x, n),
        0 <= n <= limit,
    decreases limit - k,
{
    if x < k as real + 1real {
        k
    } else {
        lemma_floor_from(x, k + 1, limit)
    }
}

/// The threshold times the bins per unit is the bin at which the histogram is cut.
proof fn lemma_threshold<A: Arithmetic>(b: int, s: Single)
    requires
        rounds_closely::<A>(),
        converts_exactly::<A>(),
        is_finite(s),
        1real / 100000real <= value(s) <= 262144real,
        0 <= b <= 255,
    ensures
        ({
            let t = A::quot_of(A::from_usize_of(b as usize), s);
            &&& is_finite(t)
            &&& 0real <= value(t)
            &&& size(value(t) * value(s) - b as real) <= 1real / 10000real
        }),
{
    lemma_tiny();
    lemma_scale_numbers();
    let n: Single = A::from_usize_of(b as usize);
    assert(is_finite(n) && value(n) == b as real) by {
        reveal(converts_exactly);
    }
    let (p, y) = (value(n), value(s));
    assert(p <= (1048576real * 1048576real * 1048576real * 1048576real) * y) by (nonlinear_arith)
        requires
            p <= 255real,
            1real / 100000real <= y,
    ;
    lemma_quot::<A>(n, s);
    let e = scale(-149);
    assert(y * e <= 134217729real * e) by (nonlinear_arith)
        requires
            y <= 134217729real,
            0real < e,
    ;
}

/// From levels times the bins per unit back to levels.
proof fn lemma_unscaled(v: real, t: real, p: real, s: real, d: real)
    requires
        0real < s,
        v * s >= t * s + p * s * d,
    ensures
        v >= t + p * d,
{
    let g = v - t - p * d;
    assert(g * s == v * s - t * s - p * s * d) by (nonlinear_arith)
        requires
            g == v - t - p * d,
    ;
    assert(g >= 0real) by (nonlinear_arith)
        requires
            g * s >= 0real,
            0real < s,
    ;
}

proof fn lemma_scaled_level(v: real, p: real, s: real)
    requires
        v <= p,
        0real < s,
    ensures
        v * s <= p * s,
{
    assert(v * s <= p * s) by (nonlinear_arith)
        requires
            v <= p,
            0real < s,
    ;
}

proof fn lemma_level_in_bin<A: Arithmetic>(level: Single, s: Single, b: int, t: real, p: real)
    requires
        rounds_closely::<A>(),
        converts_exactly::<A>(),
        is_finite(level),
        is_finite(s),
        0real <= value(level) <= p,
        0real < value(s),
        0 <= b <= 255,
        size(value(s) * p - 255real) <= 1real / 10000real,
        size(t * value(s) - b as real) <= 1real / 10000real,
    ensures
        bin_of::<A>(s, level) >= b ==> value(level) >= t - p / 100000real,
        value(level) >= t + p / 255real + p / 100000real && 0real < value(level) ==> bin_of::<A>(
            s,
            level,
        ) >= b + 1,
{
    lemma_value_units();
    values_are_ordered(Single::of(ZERO), level);
    let (v, y) = (value(level), value(s));
    let (x, z, w) = (v * y, p * y, t * y);
    assert(y * p == z) by (nonlinear_arith)
        requires
            z == p * y,
    ;
    if 0real < v {
        lemma_scaled_level(v, p, y);
        lemma_bin::<A>(level, s, x);
        if bin_of::<A>(s, level) >= b {
            let d = -(1real / 100000real);
            assert(z * d == -(z / 100000real) && p * d == -(p / 100000real)) by (nonlinear_arith)
                requires
                    d == -(1real / 100000real),
            ;
            lemma_unscaled(v, t, p, y, d);
        }
        if v >= t + p / 255real + p / 100000real {
            let u = t + p / 255real + p / 100000real;
            lemma_scaled_level(u, v, y);
            assert(u * y == w + z / 255real + z / 100000real) by (nonlinear_arith)
                requires
                    u == t + p / 255real + p / 100000real,
                    z == p * y,
                    w == t * y,
            ;
        }
    }
}

/// The peak is the largest level.
proof fn lemma_peak(mag: Seq<Single>, largest: int)
    requires
        0 <= largest < mag.len(),
        reach_up_to(mag, value(mag[largest])),
        0real < value(mag[largest]),
    ensures
        is_finite(peak(mag)),
        value(peak(mag)) == value(mag[largest]),
{
    lemma_value_units();
    peak_is_greatest(mag);
    assert(is_finite(mag[largest]));
    values_are_ordered(peak(mag), mag[largest]);
    if mag.contains(peak(mag)) {
        let k: int = choose|k: int| 0 <= k < mag.len() && mag[k] == peak(mag);
        assert(is_finite(mag[k]));
    }
}

/// The threshold leaves a share of the levels above 0: that many levels reach it,
/// if there are so many, and fewer exceed it by more than the width of a bin, a
/// 255th of the largest level.
pub proof fn threshold_leaves_the_share<A: Arithmetic>(
    mag: Seq<Single>,
    keep_frac: Single,
    largest: int,
)
    requires
        rounds_closely::<A>(),
        converts_exactly::<A>(),
        0 <= largest < mag.len(),
        reach_up_to(mag, value(mag[largest])),
        1real / 1024real <= value(mag[largest]) <= 16777216real,
    ensures
        ({
            let t = value(percentile::<A>(mag, keep_frac));
            let top = value(mag[largest]);
            let share = quota::<A>(keep_frac, count_positive(mag));
            &&& is_finite(percentile::<A>(mag, keep_frac))
            &&& 0real <= t
            &&& share <= count_positive(mag) ==> share <= count_at_least(mag, t - top / 100000real)
            &&& count_at_least(mag, t + top / 255real + top / 100000real) < share
        }),
{
    let top: Single = peak(mag);
    lemma_value_units();
    lemma_peak(mag, largest);
    let p = value(top);
    values_are_ordered(Single::of(ZERO), top);
    let s: Single = bin_scale::<A>(top);
    lemma_bins_per_level::<A>(top);
    let y = value(s);
    assert(y >= 1real / 100000real) by (nonlinear_arith)
        requires
            y * p >= 254real,
            p <= 16777216real,
            0real < y,
    ;
    let bins: Seq<int> = bins_of::<A>(s, mag);
    lemma_count_all::<A>(mag, s, p);
    let share: int = quota::<A>(keep_frac, count_positive(mag));
    assert forall|k: int| 0 <= k < bins.len() implies #[trigger] bins[k] < BINS by {}
    cut_keeps_the_quota(bins, share);
    let b: int = cut(bins, share);
    lemma_threshold::<A>(b, s);
    let r: Single = A::quot_of(A::from_usize_of(b as usize), s);
    assert(percentile::<A>(mag, keep_frac) == r);
    let t = value(r);
    assert forall|k: int| 0 <= k < mag.len() && bins[k] >= b implies value(#[trigger] mag[k]) >= t
        - p / 100000real by {
        lemma_level_in_bin::<A>(mag[k], s, b, t, p);
    }
    lemma_count_at_most(mag, bins, b, t - p / 100000real);
    assert forall|k: int|
        0 <= k < mag.len() && value(#[trigger] mag[k]) >= t + p / 255real + p
            / 100000real implies bins[k] >= b + 1 by {
        lemma_level_in_bin::<A>(mag[k], s, b, t, p);
    }
    lemma_count_covers(mag, bins, b + 1, t + p / 255real + p / 100000real);
}

/// The share is the given part of the levels above 0, rounded down, but 1 at
/// least.
pub proof fn the_share_is_a_part<A: Arithmetic>(keep_frac: Single, total: int)
    requires
        rounds_closely::<A>(),
        converts_closely::<A>(),
        is_finite(keep_frac),
        0real <= value(keep_frac) <= 1real,
        0 <= total <= 0x4000_0000,
    ensures
        ({
            let x = value(keep_frac) * (total as real);
            let n = quota::<A>(keep_frac, total) as real;
            &&& quota::<A>(keep_frac, total) >= 1
            &&& n > 1real ==> n <= x + x / 1000000real + 1real / 1000000real
            &&& n + 1real > x - x / 1000000real - 1real / 1000000real
        }),
{
    lemma_large();
    lemma_scale_numbers();
    lemma_tiny();
    let u = scale(-24);
    let n: Single = A::from_usize_of(total as usize);
    let m = total as real;
    assert(is_rounded(n, m)) by {
        reveal(converts_closely);
    }
    lemma_rounded_size(m, u);
    let (f, k) = (value(keep_frac), value(n));
    let (x, y) = (f * m, f * k);
    assert(0real <= x) by (nonlinear_arith)
        requires
            x == f * m,
            0real <= f,
            0real <= m,
    ;
    assert(0real <= y <= k) by (nonlinear_arith)
        requires
            y == f * k,
            0real <= f <= 1real,
            0real <= k,
    ;
    let t = scale(-149);
    assert(-(x / 16777216real + t) <= y - x <= x / 16777216real + t) by (nonlinear_arith)
        requires
            x == f * m,
            y == f * k,
            0real <= f <= 1real,
            0real <= t,
            -(m / 16777216real + t) <= k - m <= m / 16777216real + t,
    ;
    let r: Single = A::prod_of(keep_frac, n);
    assert(is_rounded(r, y)) by {
        reveal(rounds_closely);
    }
    lemma_rounded_size(y, u);
    let b: int = lemma_floor(value(r), 0x7fff_ffff);
    assert(A::to_usize_of(r) == b) by {
        reveal(converts_closely);
        assert(to_usize_is::<A>(r, b as usize));
    }
}

} // verus!

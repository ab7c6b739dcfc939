use vstd::prelude::*;
use crate::error::KernelError;

verus! {

/// The bin that a brightness level falls into. There are 256 bins; a level
/// beyond the last one counts as the last.
pub open spec fn bin_of(level: usize) -> int {
    if level > 255 {
        255
    } else {
        level as int
    }
}

/// The histogram: how many of the first `n` levels fall into `bin`.
pub open spec fn bin_count(levels: Seq<usize>, n: int, bin: int) -> int
    decreases n,
{
    if n <= 0 {
        0
    } else {
        bin_count(levels, n - 1, bin) + if bin_of(levels[n - 1]) == bin {
            1int
        } else {
            0int
        }
    }
}

/// The cumulative distribution: how many of the first `n` levels fall into
/// `bin` or a bin below it.
pub open spec fn cumulative(levels: Seq<usize>, n: int, bin: int) -> int
    decreases n,
{
    if n <= 0 {
        0
    } else {
        cumulative(levels, n - 1, bin) + if bin_of(levels[n - 1]) <= bin {
            1int
        } else {
            0int
        }
    }
}

/// The lowest bin that any of the first `n` levels falls into (the last bin
/// where there is no level at all).
pub open spec fn lowest_bin(levels: Seq<usize>, n: int) -> int
    decreases n,
{
    if n <= 0 {
        255
    } else if bin_of(levels[n - 1]) < lowest_bin(levels, n - 1) {
        bin_of(levels[n - 1])
    } else {
        lowest_bin(levels, n - 1)
    }
}

/// The first nonzero value of the cumulative distribution, which is the
/// population of the lowest occupied bin; zero where there is no level.
pub open spec fn cdf_min(levels: Seq<usize>, n: int) -> int {
    cumulative(levels, n, lowest_bin(levels, n))
}

/// What equalisation turns `level` into, as a count: the cumulative
/// distribution at its bin, less `cdf_min`. The equalised brightness is this
/// count divided by [`equalized_span`].
pub open spec fn equalized(levels: Seq<usize>, n: int, level: usize) -> int {
    cumulative(levels, n, bin_of(level)) - cdf_min(levels, n)
}

/// The divisor that goes with [`equalized`]: the number of levels, less
/// `cdf_min`. It is zero exactly where all levels share one bin, or there is
/// no level; the quotient is then undefined, and forming it is the caller's
/// business.
pub open spec fn equalized_span(levels: Seq<usize>, n: int) -> int {
    n - cdf_min(levels, n)
}

/// No bin holds more levels than there are, and neither does the cumulative
/// distribution, which reaches the full number at the last bin.
pub proof fn lemma_counts_bounded(levels: Seq<usize>, n: int, bin: int)
    requires
        0 <= n,
    ensures
        0 <= bin_count(levels, n, bin) <= n,
        0 <= cumulative(levels, n, bin) <= n,
        bin >= 255 ==> cumulative(levels, n, bin) == n,
        bin < 0 ==> cumulative(levels, n, bin) == 0,
    decreases n,
{
    if n > 0 {
        lemma_counts_bounded(levels, n - 1, bin);
    }
}

/// The cumulative distribution is the running sum of the histogram.
pub proof fn lemma_cumulative_is_prefix_sum(levels: Seq<usize>, n: int, bin: int)
    requires
        0 <= n,
    ensures
        cumulative(levels, n, bin) == cumulative(levels, n, bin - 1) + bin_count(levels, n, bin),
    decreases n,
{
    if n > 0 {
        lemma_cumulative_is_prefix_sum(levels, n - 1, bin);
    }
}

/// The cumulative distribution never decreases from one bin to a higher one.
pub proof fn lemma_cumulative_monotone(levels: Seq<usize>, n: int, lo: int, hi: int)
    requires
        lo <= hi,
    ensures
        cumulative(levels, n, lo) <= cumulative(levels, n, hi),
    decreases n,
{
    if n > 0 {
        lemma_cumulative_monotone(levels, n - 1, lo, hi);
    }
}

/// The lowest occupied bin is a bin, lies at or below the bin of every level,
/// and is the bin of one of them.
pub proof fn lemma_lowest_bin(levels: Seq<usize>, n: int)
    requires
        0 <= n,
    ensures
        0 <= lowest_bin(levels, n) <= 255,
        forall|i: int| 0 <= i < n ==> lowest_bin(levels, n) <= bin_of(#[trigger] levels[i]),
        n > 0 ==> exists|i: int| 0 <= i < n && bin_of(#[trigger] levels[i]) == lowest_bin(levels, n),
    decreases n,
{
    if n > 0 {
        lemma_lowest_bin(levels, n - 1);
        if n - 1 > 0 && !(bin_of(levels[n - 1]) < lowest_bin(levels, n - 1)) {
            let i = choose|i: int|
                0 <= i < n - 1 && bin_of(#[trigger] levels[i]) == lowest_bin(levels, n - 1);
            assert(0 <= i < n && bin_of(levels[i]) == lowest_bin(levels, n));
        } else {
            assert(bin_of(levels[n - 1]) == lowest_bin(levels, n));
        }
    }
}

/// The cumulative distribution is positive exactly from the lowest occupied
/// bin on.
pub proof fn lemma_cumulative_positive(levels: Seq<usize>, n: int, bin: int)
    requires
        0 <= n,
    ensures
        cumulative(levels, n, bin) > 0 <==> n > 0 && lowest_bin(levels, n) <= bin,
    decreases n,
{
    if n > 0 {
        lemma_cumulative_positive(levels, n - 1, bin);
        lemma_counts_bounded(levels, n - 1, bin);
        lemma_lowest_bin(levels, n - 1);
    }
}

/// The cumulative distribution at `bin` counts every level exactly where no
/// level lies above `bin`.
pub proof fn lemma_cumulative_full(levels: Seq<usize>, n: int, bin: int)
    requires
        0 <= n,
    ensures
        cumulative(levels, n, bin) == n <==> forall|i: int|
            0 <= i < n ==> bin_of(#[trigger] levels[i]) <= bin,
    decreases n,
{
    if n > 0 {
        lemma_cumulative_full(levels, n - 1, bin);
        lemma_counts_bounded(levels, n - 1, bin);
        if cumulative(levels, n, bin) == n {
            assert forall|i: int| 0 <= i < n implies bin_of(#[trigger] levels[i]) <= bin by {
                if i == n - 1 {
                } else {
                    assert(0 <= i < n - 1);
                }
            }
        }
    }
}

/// A level that occurs equalises to a count between zero and the span.
pub proof fn lemma_equalized_bounds(levels: Seq<usize>, n: int, i: int)
    requires
        0 <= i < n <= levels.len(),
    ensures
        0 <= equalized(levels, n, levels[i]) <= equalized_span(levels, n),
        0 < cdf_min(levels, n) <= n,
{
    lemma_lowest_bin(levels, n);
    lemma_cumulative_monotone(levels, n, lowest_bin(levels, n), bin_of(levels[i]));
    lemma_counts_bounded(levels, n, bin_of(levels[i]));
    lemma_counts_bounded(levels, n, lowest_bin(levels, n));
    lemma_cumulative_positive(levels, n, lowest_bin(levels, n));
}

/// Equalisation keeps the order of brightness: a level that is at least
/// another equalises to at least what the other does.
pub proof fn lemma_equalized_monotone(levels: Seq<usize>, n: int, darker: usize, brighter: usize)
    requires
        0 <= n <= levels.len(),
        darker <= brighter,
    ensures
        equalized(levels, n, darker) <= equalized(levels, n, brighter),
{
    lemma_cumulative_monotone(levels, n, bin_of(darker), bin_of(brighter));
}

/// The span is positive exactly where two of the levels fall into different
/// bins: only then is the equalised brightness a quotient at all.
pub proof fn lemma_span_positive(levels: Seq<usize>, n: int)
    requires
        0 <= n <= levels.len(),
    ensures
        equalized_span(levels, n) > 0 <==> exists|i: int, j: int|
            0 <= i < n && 0 <= j < n && bin_of(#[trigger] levels[i]) != bin_of(
                #[trigger] levels[j],
            ),
{
    let low = lowest_bin(levels, n);
    lemma_lowest_bin(levels, n);
    lemma_counts_bounded(levels, n, low);
    lemma_cumulative_full(levels, n, low);
    if equalized_span(levels, n) > 0 {
        let j = choose|j: int| 0 <= j < n && !(bin_of(#[trigger] levels[j]) <= low);
        let i = choose|i: int| 0 <= i < n && bin_of(#[trigger] levels[i]) == low;
        assert(0 <= i < n && 0 <= j < n && bin_of(levels[i]) != bin_of(levels[j]));
    }
    if exists|i: int, j: int|
        0 <= i < n && 0 <= j < n && bin_of(#[trigger] levels[i]) != bin_of(#[trigger] levels[j]) {
        let (i, j) = choose|i: int, j: int|
            0 <= i < n && 0 <= j < n && bin_of(#[trigger] levels[i]) != bin_of(
                #[trigger] levels[j],
            );
        assert(low <= bin_of(levels[i]) && low <= bin_of(levels[j]));
        assert(!(bin_of(levels[i]) <= low) || !(bin_of(levels[j]) <= low));
    }
}

/// An image of exactly two brightness levels equalises to the two ends of the
/// range: the darker level to zero, the brighter to the whole span, so that
/// the quotients are exactly 0 and 1.
pub proof fn lemma_equalized_two_levels(levels: Seq<usize>, n: int, darker: usize, brighter: usize)
    requires
        0 <= n <= levels.len(),
        bin_of(darker) < bin_of(brighter),
        exists|i: int| 0 <= i < n && bin_of(#[trigger] levels[i]) == bin_of(darker),
        exists|i: int| 0 <= i < n && bin_of(#[trigger] levels[i]) == bin_of(brighter),
        forall|i: int|
            0 <= i < n ==> bin_of(#[trigger] levels[i]) == bin_of(darker) || bin_of(levels[i])
                == bin_of(brighter),
    ensures
        equalized(levels, n, darker) == 0,
        equalized(levels, n, brighter) == equalized_span(levels, n),
        equalized_span(levels, n) > 0,
{
    let low = lowest_bin(levels, n);
    lemma_lowest_bin(levels, n);
    let d = choose|i: int| 0 <= i < n && bin_of(#[trigger] levels[i]) == bin_of(darker);
    let b = choose|i: int| 0 <= i < n && bin_of(#[trigger] levels[i]) == bin_of(brighter);
    let l = choose|i: int| 0 <= i < n && bin_of(#[trigger] levels[i]) == low;
    assert(low <= bin_of(levels[d]));
    assert(bin_of(levels[l]) == bin_of(darker) || bin_of(levels[l]) == bin_of(brighter));
    assert(low == bin_of(darker));
    lemma_cumulative_full(levels, n, bin_of(brighter));
    lemma_span_positive(levels, n);
    assert(0 <= d < n && 0 <= b < n && bin_of(levels[d]) != bin_of(levels[b]));
}

/// Equalises the first `pixel_count` brightness levels in place and returns
/// the span that the new values are counted against.
///
/// A level is a brightness in units of 1/255, rounded down; levels above 255
/// are taken as 255. Each level is replaced by the number of levels that fall
/// into its bin or a lower one, less the population of the lowest occupied
/// bin. Dividing that count by the returned span gives the equalised
/// brightness: 0 for the darkest level and 1 for the brightest.
///
/// The quotient is not formed here and nothing guards it. The returned span is
/// zero if all levels share one bin (the counts are then zero too), and also
/// if `pixel_count` is zero; see [`lemma_span_positive`].
pub fn apply_histogram_eq(levels: &mut [usize], pixel_count: usize) -> (res: Result<
    usize,
    KernelError,
>)
    ensures
        final(levels)@.len() == old(levels)@.len(),
        pixel_count <= old(levels)@.len() ==> {
            &&& res == Ok::<usize, KernelError>(
                equalized_span(old(levels)@, pixel_count as int) as usize,
            )
            &&& 0 <= equalized_span(old(levels)@, pixel_count as int) <= pixel_count
            &&& forall|i: int|
                0 <= i < pixel_count ==> #[trigger] final(levels)@[i] == equalized(
                    old(levels)@,
                    pixel_count as int,
                    old(levels)@[i],
                )
            &&& forall|i: int|
                pixel_count <= i < old(levels)@.len() ==> #[trigger] final(levels)@[i] == old(
                    levels,
                )@[i]
        },
        pixel_count > old(levels)@.len() ==> res == Err::<usize, KernelError>(
            KernelError::OutOfBounds,
        ) && final(levels)@ == old(levels)@,
{
    let len: usize = levels.len();
    if pixel_count > len {
        return Err(KernelError::OutOfBounds);
    }
    let ghost orig = levels@;
    let ghost n = pixel_count as int;

    let mut histogram = [0usize;256];
    let mut i: usize = 0;
    while i < pixel_count
        invariant
            i <= pixel_count <= len,
            len == levels@.len(),
            levels@ == orig,
            forall|b: int| 0 <= b < 256 ==> #[trigger] histogram@[b] == bin_count(orig, i as int, b),
        decreases pixel_count - i,
    {
        let raw: usize = levels[i];
        let bin: usize = if raw > 255 {
            255
        } else {
            raw
        };
        proof {
            lemma_counts_bounded(orig, i as int, bin as int);
        }
        histogram[bin] = histogram[bin] + 1;
        i += 1;
    }

    let mut cdf = [0usize;256];
    cdf[0] = histogram[0];
    proof {
        lemma_cumulative_is_prefix_sum(orig, n, 0);
        lemma_counts_bounded(orig, n, -1);
    }
    let mut b: usize = 1;
    while b < 256
        invariant
            1 <= b <= 256,
            n == pixel_count,
            forall|c: int| 0 <= c < 256 ==> #[trigger] histogram@[c] == bin_count(orig, n, c),
            forall|c: int| 0 <= c < b ==> #[trigger] cdf@[c] == cumulative(orig, n, c),
        decreases 256 - b,
    {
        proof {
            lemma_cumulative_is_prefix_sum(orig, n, b as int);
            lemma_counts_bounded(orig, n, b as int);
        }
        cdf[b] = cdf[b - 1] + histogram[b];
        b += 1;
    }

    let mut floor: usize = 0;
    let mut b: usize = 0;
    while b < 256 && floor == 0
        invariant
            b <= 256,
            n == pixel_count,
            forall|c: int| 0 <= c < 256 ==> #[trigger] cdf@[c] == cumulative(orig, n, c),
            floor == 0 ==> forall|c: int| 0 <= c < b ==> #[trigger] cdf@[c] == 0,
            floor != 0 ==> floor == cdf_min(orig, n),
        decreases 256 - b,
    {
        if cdf[b] > 0 {
            floor = cdf[b];
            proof {
                let low = lowest_bin(orig, n);
                lemma_lowest_bin(orig, n);
                lemma_cumulative_positive(orig, n, b as int);
                lemma_cumulative_positive(orig, n, low);
                assert(cdf@[low] == cumulative(orig, n, low));
                assert(low == b);
            }
        }
        b += 1;
    }
    proof {
        if floor == 0 {
            lemma_lowest_bin(orig, n);
            lemma_counts_bounded(orig, n, lowest_bin(orig, n));
            lemma_cumulative_positive(orig, n, lowest_bin(orig, n));
            assert(cdf@[lowest_bin(orig, n)] == cumulative(orig, n, lowest_bin(orig, n)));
        }
        lemma_counts_bounded(orig, n, lowest_bin(orig, n));
    }

    let mut i: usize = 0;
    while i < pixel_count
        invariant
            i <= pixel_count <= len,
            len == levels@.len(),
            orig.len() == len,
            n == pixel_count,
            floor == cdf_min(orig, n),
            forall|c: int| 0 <= c < 256 ==> #[trigger] cdf@[c] == cumulative(orig, n, c),
            forall|k: int| 0 <= k < i ==> #[trigger] levels@[k] == equalized(orig, n, orig[k]),
            forall|k: int| i <= k < len ==> #[trigger] levels@[k] == orig[k],
        decreases pixel_count - i,
    {
        let raw: usize = levels[i];
        let bin: usize = if raw > 255 {
            255
        } else {
            raw
        };
        proof {
            lemma_equalized_bounds(orig, n, i as int);
        }
        levels[i] = cdf[bin] - floor;
        i += 1;
    }
    Ok(pixel_count - floor)
}

} // verus!

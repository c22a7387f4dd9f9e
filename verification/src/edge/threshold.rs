use vstd::prelude::*;
use crate::memory::buffer::DocBuffer;
use crate::grid::{lemma_grid_index};

verus! {

/// Histogram statistics behind the adaptive Canny thresholds.
pub struct AdaptiveThreshold;

/// How many entries of `s` equal `v`.
pub open spec fn count_of(s: Seq<u8>, v: int) -> nat
    decreases s.len(),
{
    if s.len() == 0 {
        0
    } else {
        count_of(s.drop_last(), v) + if s.last() == v { 1nat } else { 0nat }
    }
}

/// The number of pixels counted in bins `0..n` of a histogram.
pub open spec fn prefix(hist: Seq<u32>, n: int) -> int
    decreases n,
{
    if n <= 0 || n > hist.len() {
        0
    } else {
        prefix(hist, n - 1) + hist[n - 1]
    }
}

/// The first bin `i >= from` whose cumulative count reaches `target`, or
/// `default` when none among the 256 bins does.
pub open spec fn first_reaching(hist: Seq<u32>, target: int, from: int, default: u8) -> u8
    decreases 256 - from,
{
    if from >= 256 {
        default
    } else if prefix(hist, from + 1) >= target {
        from as u8
    } else {
        first_reaching(hist, target, from + 1, default)
    }
}

/// The pixel count that a percentile asks the cumulative histogram to reach:
/// `total * percent / 100`, cut to 32 bits.
pub open spec fn percentile_target(total: u32, percent: u32) -> int {
    ((total * percent / 100) as u32) as int
}

/// The value at the given percentile of a 256-bin histogram of `total` pixels.
pub open spec fn percentile_spec(hist: Seq<u32>, total: u32, percent: u32) -> u8 {
    first_reaching(hist, percentile_target(total, percent), 0, 255)
}

/// The median of a 256-bin histogram of `total` pixels: the first bin at which
/// the cumulative count reaches the median's rank `(total + 1) / 2` (the
/// middle pixel for an odd count, the lower middle one for an even count), or
/// 127 when none does.
pub open spec fn median_spec(hist: Seq<u32>, total: u32) -> u8 {
    first_reaching(hist, (total + 1) / 2, 0, 127)
}

/// The 256-bin histogram of the pixel values `s`.
pub open spec fn histogram_of(s: Seq<u8>) -> Seq<u32> {
    Seq::new(256, |v: int| count_of(s, v) as u32)
}

/// The strategy that the adaptive thresholds follow, with the histogram
/// statistics that it needs.
#[derive(Clone, Copy, Debug, PartialEq, Eq, Structural)]
pub enum ThresholdPlan {
    /// Median at most 10 (dark or sparse image): thresholds from the 70th and
    /// 85th percentiles.
    Sparse { median: u8, p70: u8, p85: u8 },
    /// Median above 150 with a dynamic range (p90 - p10) under 30, or a
    /// highlight spread (p90 - p75) under 10: fixed low thresholds.
    ExtremeHighlight { median: u8, dynamic_range: i32, highlight_spread: i32 },
    /// Median above 150 with enough contrast: thresholds from the 25th and
    /// 75th percentiles.
    BrightBackground { median: u8, p25: u8, p75: u8 },
    /// Median in `11..=150`: thresholds around the median.
    Normal { median: u8 },
}

/// The threshold strategy for a histogram of `total` pixels.
pub open spec fn plan_spec(hist: Seq<u32>, total: u32) -> ThresholdPlan {
    let median = median_spec(hist, total);
    if median <= 10 {
        ThresholdPlan::Sparse {
            median,
            p70: percentile_spec(hist, total, 70),
            p85: percentile_spec(hist, total, 85),
        }
    } else if median > 150 {
        let p10 = percentile_spec(hist, total, 10);
        let p25 = percentile_spec(hist, total, 25);
        let p75 = percentile_spec(hist, total, 75);
        let p90 = percentile_spec(hist, total, 90);
        let dynamic_range = p90 - p10;
        let highlight_spread = p90 - p75;
        if dynamic_range < 30 || highlight_spread < 10 {
            ThresholdPlan::ExtremeHighlight {
                median,
                dynamic_range: dynamic_range as i32,
                highlight_spread: highlight_spread as i32,
            }
        } else {
            ThresholdPlan::BrightBackground { median, p25, p75 }
        }
    } else {
        ThresholdPlan::Normal { median }
    }
}

/// The pixels that the quick median samples: every fourth column of every
/// fourth row, starting at the top-left pixel, in row-major order.
pub open spec fn samples(buffer: DocBuffer) -> Seq<u8> {
    let cols = (buffer.width + 3) / 4;
    let rows = (buffer.height + 3) / 4;
    Seq::new((rows * cols) as nat, |k: int| buffer.pixel(4 * (k % cols), 4 * (k / cols)))
}

/// The quick median: the median of the sampled pixels (the first bin whose
/// cumulative count reaches the median's rank), or 127 when there are none.
pub open spec fn fast_median_spec(buffer: DocBuffer) -> u8 {
    let s = samples(buffer);
    if s.len() == 0 {
        127
    } else {
        first_reaching(histogram_of(s), ((s.len() + 1) / 2) as int, 0, 127)
    }
}

proof fn lemma_count_bound(s: Seq<u8>, v: int)
    ensures
        count_of(s, v) <= s.len(),
    decreases s.len(),
{
    if s.len() > 0 {
        lemma_count_bound(s.drop_last(), v);
    }
}

/// The bins of a histogram of `s` add up to the length of `s`.
pub proof fn lemma_histogram_total(s: Seq<u8>)
    requires
        s.len() <= u32::MAX,
    ensures
        prefix(histogram_of(s), 256) == s.len(),
{
    lemma_prefix_counts(s, 256);
    lemma_counts_below_all(s);
}

/// The cumulative count of the first `n` bins counts the values below `n`.
proof fn lemma_prefix_counts(s: Seq<u8>, n: int)
    requires
        0 <= n <= 256,
        s.len() <= u32::MAX,
    ensures
        prefix(histogram_of(s), n) == count_below(s, n),
    decreases n,
{
    if n > 0 {
        lemma_prefix_counts(s, n - 1);
        lemma_count_bound(s, n - 1);
        lemma_count_below_step(s, n - 1);
        assert(histogram_of(s)[n - 1] == count_of(s, n - 1));
    } else {
        lemma_count_below_zero(s);
    }
}

proof fn lemma_count_below_zero(s: Seq<u8>)
    ensures
        count_below(s, 0) == 0,
    decreases s.len(),
{
    if s.len() > 0 {
        lemma_count_below_zero(s.drop_last());
    }
}

/// How many entries of `s` are below `n`.
pub open spec fn count_below(s: Seq<u8>, n: int) -> nat
    decreases s.len(),
{
    if s.len() == 0 {
        0
    } else {
        count_below(s.drop_last(), n) + if s.last() < n { 1nat } else { 0nat }
    }
}

proof fn lemma_count_below_step(s: Seq<u8>, v: int)
    ensures
        count_below(s, v + 1) == count_below(s, v) + count_of(s, v),
    decreases s.len(),
{
    if s.len() > 0 {
        lemma_count_below_step(s.drop_last(), v);
    }
}

proof fn lemma_counts_below_all(s: Seq<u8>)
    ensures
        count_below(s, 256) == s.len(),
    decreases s.len(),
{
    if s.len() > 0 {
        lemma_counts_below_all(s.drop_last());
    }
}

proof fn lemma_prefix_mono(hist: Seq<u32>, a: int, b: int)
    requires
        0 <= a <= b <= hist.len(),
    ensures
        prefix(hist, a) <= prefix(hist, b),
        prefix(hist, b) >= 0,
    decreases b,
{
    if b > a {
        lemma_prefix_mono(hist, a, b - 1);
    } else if b > 0 {
        lemma_prefix_mono(hist, 0, b - 1);
    }
}

impl AdaptiveThreshold {
    /// The 256-bin histogram of a sequence of pixel values.
    pub fn histogram(pixels: &[u8]) -> (hist: [u32; 256])
        requires
            pixels@.len() <= u32::MAX,
        ensures
            hist@ == histogram_of(pixels@),
    {
        let mut hist = [0u32; 256];
        let mut i: usize = 0;
        while i < pixels.len()
            invariant
                pixels@.len() <= u32::MAX,
                i <= pixels@.len(),
                forall|v: int| 0 <= v < 256 ==> #[trigger] hist@[v] == count_of(pixels@.take(i as int), v),
            decreases pixels@.len() - i,
        {
            let p = pixels[i];
            proof {
                assert(pixels@.take(i + 1).drop_last() =~= pixels@.take(i as int));
                lemma_count_bound(pixels@.take(i as int), p as int);
            }
            hist[p as usize] = hist[p as usize] + 1;
            i += 1;
        }
        assert(pixels@.take(pixels@.len() as int) =~= pixels@);
        assert(hist@ =~= histogram_of(pixels@));
        hist
    }

    /// The first bin at which the cumulative count reaches `target`, or `default`.
    fn first_bin_reaching(hist: &[u32; 256], target: u32, default: u8) -> (bin: u8)
        requires
            prefix(hist@, 256) <= u32::MAX,
        ensures
            bin == first_reaching(hist@, target as int, 0, default),
    {
        let mut cumulative: u32 = 0;
        let mut i: usize = 0;
        while i < 256
            invariant
                prefix(hist@, 256) <= u32::MAX,
                i <= 256,
                cumulative == prefix(hist@, i as int),
                first_reaching(hist@, target as int, 0, default)
                    == first_reaching(hist@, target as int, i as int, default),
            decreases 256 - i,
        {
            proof {
                lemma_prefix_mono(hist@, i + 1, 256);
            }
            cumulative = cumulative + hist[i];
            if cumulative >= target {
                return i as u8;
            }
            i += 1;
        }
        default
    }

    /// The value at the given percentile of a histogram of `total` pixels: the
    /// first bin at which the cumulative count reaches `total * percent / 100`
    /// (cut to 32 bits), or 255 when none does.
    pub fn percentile(hist: &[u32; 256], total: u32, percent: u32) -> (p: u8)
        requires
            prefix(hist@, 256) <= u32::MAX,
        ensures
            p == percentile_spec(hist@, total, percent),
    {
        proof {
            crate::geom::point::lemma_mul_bound(total as int, percent as int, u32::MAX as int, u32::MAX as int);
        }
        let target = (total as u64 * percent as u64 / 100) as u32;
        Self::first_bin_reaching(hist, target, 255)
    }

    /// The median of a histogram of `total` pixels: the first bin whose
    /// cumulative count reaches `(total + 1) / 2` (127 when none does).
    pub fn median(hist: &[u32; 256], total: u32) -> (m: u8)
        requires
            prefix(hist@, 256) <= u32::MAX,
        ensures
            m == median_spec(hist@, total),
    {
        Self::first_bin_reaching(hist, total / 2 + total % 2, 127)
    }

    /// The threshold strategy for a histogram of `total` pixels, chosen by the
    /// median and, for bright images, by the spread of the upper percentiles.
    pub fn plan(hist: &[u32; 256], total: u32) -> (plan: ThresholdPlan)
        requires
            prefix(hist@, 256) <= u32::MAX,
        ensures
            plan == plan_spec(hist@, total),
    {
        let median = Self::median(hist, total);
        if median <= 10 {
            let p70 = Self::percentile(hist, total, 70);
            let p85 = Self::percentile(hist, total, 85);
            ThresholdPlan::Sparse { median, p70, p85 }
        } else if median > 150 {
            let p10 = Self::percentile(hist, total, 10);
            let p25 = Self::percentile(hist, total, 25);
            let p75 = Self::percentile(hist, total, 75);
            let p90 = Self::percentile(hist, total, 90);
            let dynamic_range = p90 as i32 - p10 as i32;
            let highlight_spread = p90 as i32 - p75 as i32;
            if dynamic_range < 30 || highlight_spread < 10 {
                ThresholdPlan::ExtremeHighlight { median, dynamic_range, highlight_spread }
            } else {
                ThresholdPlan::BrightBackground { median, p25, p75 }
            }
        } else {
            ThresholdPlan::Normal { median }
        }
    }

    /// The threshold strategy for an image, from the histogram of all its pixels.
    pub fn plan_for(buffer: &DocBuffer) -> (plan: ThresholdPlan)
        requires
            buffer.wf(),
            buffer.width * buffer.height <= u32::MAX,
        ensures
            plan == plan_spec(histogram_of(buffer.pixels()), (buffer.width * buffer.height) as u32),
    {
        let pixels = buffer.compact();
        let hist = Self::histogram(pixels.as_slice());
        proof {
            lemma_histogram_total(pixels@);
        }
        let total = (buffer.width as u64 * buffer.height as u64) as u32;
        Self::plan(&hist, total)
    }

    /// A quick approximate median for low-power previews: the median of the
    /// pixels in every fourth column of every fourth row.
    pub fn fast_median(buffer: &DocBuffer) -> (m: u8)
        requires
            buffer.wf(),
            buffer.width * buffer.height <= u32::MAX,
        ensures
            m == fast_median_spec(*buffer),
    {
        let ghost w = buffer.width as int;
        let ghost h = buffer.height as int;
        let ghost st = buffer.stride as int;
        let cols = ((buffer.width as u64 + 3) / 4) as usize;
        let rows = ((buffer.height as u64 + 3) / 4) as usize;
        proof {
            lemma_quarter(w);
            lemma_quarter(h);
            assert(rows * cols <= h * w) by (nonlinear_arith)
                requires 0 <= rows <= h, 0 <= cols <= w;
            assert(h * w == w * h) by (nonlinear_arith);
            assert(h * w <= h * st) by (nonlinear_arith)
                requires h >= 0, w <= st;
        }
        let stride = buffer.stride as usize;
        let len = buffer.data.len();
        let ghost target = samples(*buffer);
        let mut sampled: Vec<u8> = Vec::new();
        let mut r: usize = 0;
        while r < rows
            invariant
                buffer.wf(),
                w == buffer.width, h == buffer.height, st == buffer.stride,
                stride == st,
                len == buffer.data@.len(),
                cols == (w + 3) / 4,
                rows == (h + 3) / 4,
                4 * cols < w + 4, 4 * rows < h + 4,
                cols <= w, rows <= h,
                target == samples(*buffer),
                r <= rows,
                sampled@.len() == r * cols,
                forall|k: int| 0 <= k < sampled@.len() ==> sampled@[k] == target[k],
            decreases rows - r,
        {
            let mut c: usize = 0;
            while c < cols
                invariant
                    buffer.wf(),
                    w == buffer.width, h == buffer.height, st == buffer.stride,
                    stride == st,
                    len == buffer.data@.len(),
                    cols == (w + 3) / 4,
                    rows == (h + 3) / 4,
                    4 * cols < w + 4, 4 * rows < h + 4,
                    cols <= w, rows <= h,
                    target == samples(*buffer),
                    r < rows,
                    c <= cols,
                    sampled@.len() == r * cols + c,
                    forall|k: int| 0 <= k < sampled@.len() ==> sampled@[k] == target[k],
                decreases cols - c,
            {
                let y = 4 * r;
                let x = 4 * c;
                proof {
                    assert(y < h && x < w);
                    lemma_grid_index(c as int, r as int, cols as int, rows as int);
                    assert(y * st + x < h * st) by (nonlinear_arith)
                        requires y < h, x < w, w <= st;
                }
                sampled.push(buffer.data[y * stride + x]);
                c += 1;
            }
            assert(r * cols + cols == (r + 1) * cols) by (nonlinear_arith);
            r += 1;
        }
        assert(sampled@ =~= target);
        let hist = Self::histogram(sampled.as_slice());
        proof {
            lemma_histogram_total(sampled@);
        }
        let count = sampled.len() as u32;
        if count == 0 {
            return 127;
        }
        Self::first_bin_reaching(&hist, count / 2 + count % 2, 127)
    }
}

/// `(n + 3) / 4` is the number of multiples of four below `n`, at most `n`.
proof fn lemma_quarter(n: int)
    requires
        n >= 0,
    ensures
        (n + 3) / 4 <= n,
        4 * ((n + 3) / 4) < n + 4,
        4 * ((n + 3) / 4) >= n,
        (n + 3) / 4 >= 0,
{
    vstd::arithmetic::div_mod::lemma_fundamental_div_mod(n + 3, 4);
    vstd::arithmetic::div_mod::lemma_mod_bound(n + 3, 4);
}

} // verus!
verus! {

proof fn lemma_first_reaching_mono(hist: Seq<u32>, t1: int, t2: int, from: int)
    requires
        0 <= from <= 256,
        hist.len() == 256,
        t1 <= t2,
    ensures
        first_reaching(hist, t1, from, 255) <= first_reaching(hist, t2, from, 255),
        from < 256 ==> from <= first_reaching(hist, t2, from, 255),
    decreases 256 - from,
{
    if from < 256 {
        lemma_first_reaching_mono(hist, t1, t2, from + 1);
    }
}

proof fn lemma_first_reaching_rank(hist: Seq<u32>, target: int, from: int, d: u8)
    requires
        0 <= from < 256,
        hist.len() == 256,
        prefix(hist, from) < target,
        prefix(hist, 256) >= target,
    ensures
        from <= first_reaching(hist, target, from, d) < 256,
        prefix(hist, first_reaching(hist, target, from, d) + 1) >= target,
        prefix(hist, first_reaching(hist, target, from, d) as int) < target,
    decreases 256 - from,
{
    if prefix(hist, from + 1) < target {
        lemma_first_reaching_rank(hist, target, from + 1, d);
    }
}

/// The median of a histogram whose bins add up to `total` (at least one
/// pixel) is the middle value: at least `(total + 1) / 2` pixels are at most
/// the median, and fewer than that are below it.
pub proof fn lemma_median_is_middle(hist: Seq<u32>, total: u32)
    requires
        hist.len() == 256,
        prefix(hist, 256) == total,
        total >= 1,
    ensures
        prefix(hist, median_spec(hist, total) + 1) >= (total + 1) / 2,
        prefix(hist, median_spec(hist, total) as int) < (total + 1) / 2,
{
    lemma_first_reaching_rank(hist, (total + 1) / 2, 0, 127);
}

/// A higher percentile never gives a lower value.
pub proof fn lemma_percentile_monotone(hist: Seq<u32>, total: u32, a: u32, b: u32)
    requires
        hist.len() == 256,
        a <= b <= 100,
    ensures
        percentile_spec(hist, total, a) <= percentile_spec(hist, total, b),
{
    assert(total * a <= total * b) by (nonlinear_arith)
        requires a <= b, total >= 0;
    assert(total * b <= total * 100) by (nonlinear_arith)
        requires b <= 100, total >= 0;
    assert(total * a / 100 <= total * b / 100) by (nonlinear_arith)
        requires total * a <= total * b, total * a >= 0;
    assert(total * b / 100 <= total) by (nonlinear_arith)
        requires total * b <= total * 100, total >= 0;
    lemma_first_reaching_mono(hist, percentile_target(total, a), percentile_target(total, b), 0);
}

} // verus!

verus! {

proof fn lemma_count_is_multiplicity(s: Seq<u8>, v: u8)
    ensures
        count_of(s, v as int) == s.to_multiset().count(v),
    decreases s.len(),
{
    broadcast use vstd::seq_lib::group_to_multiset_ensures;
    if s.len() == 0 {
        assert(s.to_multiset() =~= vstd::multiset::Multiset::empty());
    } else {
        lemma_count_is_multiplicity(s.drop_last(), v);
        assert(s.drop_last().push(s.last()) =~= s);
    }
}

/// The histogram of a pixel sequence depends only on which values occur how
/// often, not on where.
pub proof fn lemma_histogram_of_multiset(a: Seq<u8>, b: Seq<u8>)
    requires
        a.to_multiset() == b.to_multiset(),
    ensures
        histogram_of(a) == histogram_of(b),
        a.len() == b.len(),
{
    broadcast use vstd::seq_lib::group_to_multiset_ensures;
    assert forall|v: int| 0 <= v < 256 implies #[trigger] histogram_of(a)[v] == histogram_of(b)[v] by {
        lemma_count_is_multiplicity(a, v as u8);
        lemma_count_is_multiplicity(b, v as u8);
    }
    assert(histogram_of(a) =~= histogram_of(b));
    a.to_multiset_ensures();
    b.to_multiset_ensures();
}

/// The threshold strategy depends only on the grey-level histogram: two
/// images whose pixels are rearrangements of each other (any sizes and row
/// paddings) get the same strategy.
pub proof fn lemma_plan_depends_on_histogram(a: DocBuffer, b: DocBuffer)
    requires
        a.pixels().to_multiset() == b.pixels().to_multiset(),
    ensures
        a.width * a.height == b.width * b.height,
        plan_spec(histogram_of(a.pixels()), (a.width * a.height) as u32)
            == plan_spec(histogram_of(b.pixels()), (b.width * b.height) as u32),
{
    lemma_histogram_of_multiset(a.pixels(), b.pixels());
}

/// `v` is the grey level at which the cumulative histogram first reaches
/// `target` pixels: at least `target` pixels are at most `v`, fewer than that
/// are below it (unless `v` is 0); when the whole histogram holds fewer than
/// `target` pixels, `v` is `default`.
pub open spec fn value_at_rank(hist: Seq<u32>, target: int, v: int, default: int) -> bool {
    if prefix(hist, 256) >= target {
        &&& 0 <= v < 256
        &&& prefix(hist, v + 1) >= target
        &&& (v == 0 || prefix(hist, v) < target)
    } else {
        v == default
    }
}

proof fn lemma_first_reaching_at_rank(hist: Seq<u32>, target: int, from: int, d: u8)
    requires
        0 <= from <= 256,
        hist.len() == 256,
        from == 0 || prefix(hist, from) < target,
    ensures
        value_at_rank(hist, target, first_reaching(hist, target, from, d) as int, d as int),
    decreases 256 - from,
{
    if from < 256 {
        if prefix(hist, from + 1) >= target {
            lemma_prefix_mono(hist, from + 1, 256);
        } else {
            lemma_first_reaching_at_rank(hist, target, from + 1, d);
        }
    }
}

/// The statistics that a threshold strategy carries are the grey levels at
/// their ranks in the histogram of `total` pixels: the median at rank
/// `(total + 1) / 2` (127 when the histogram is too small), and the `q`-th
/// percentile at rank `total * q / 100` (255 when too small). The strategy is
/// the one that the median selects: `Sparse` for a median of at most 10, with
/// the 70th percentile not above the 85th; `Normal` for 11 to 150; above 150,
/// `ExtremeHighlight` when the spread between the 10th and 90th percentiles is
/// under 30 or that between the 75th and 90th is under 10, and otherwise
/// `BrightBackground`, with the 25th percentile not above the 75th.
pub proof fn lemma_plan_statistics(hist: Seq<u32>, total: u32)
    requires
        hist.len() == 256,
    ensures
        match plan_spec(hist, total) {
            ThresholdPlan::Sparse { median, p70, p85 } => {
                &&& median <= 10
                &&& value_at_rank(hist, (total + 1) / 2, median as int, 127)
                &&& value_at_rank(hist, percentile_target(total, 70), p70 as int, 255)
                &&& value_at_rank(hist, percentile_target(total, 85), p85 as int, 255)
                &&& p70 <= p85
            },
            ThresholdPlan::ExtremeHighlight { median, dynamic_range, highlight_spread } => {
                &&& median > 150
                &&& value_at_rank(hist, (total + 1) / 2, median as int, 127)
                &&& exists|p10: int, p75: int, p90: int| {
                    &&& value_at_rank(hist, percentile_target(total, 10), p10, 255)
                    &&& value_at_rank(hist, percentile_target(total, 75), p75, 255)
                    &&& value_at_rank(hist, percentile_target(total, 90), p90, 255)
                    &&& dynamic_range == p90 - p10
                    &&& highlight_spread == p90 - p75
                }
                &&& (dynamic_range < 30 || highlight_spread < 10)
            },
            ThresholdPlan::BrightBackground { median, p25, p75 } => {
                &&& median > 150
                &&& value_at_rank(hist, (total + 1) / 2, median as int, 127)
                &&& value_at_rank(hist, percentile_target(total, 25), p25 as int, 255)
                &&& value_at_rank(hist, percentile_target(total, 75), p75 as int, 255)
                &&& p25 <= p75
                &&& exists|p10: int, p90: int| {
                    &&& value_at_rank(hist, percentile_target(total, 10), p10, 255)
                    &&& value_at_rank(hist, percentile_target(total, 90), p90, 255)
                    &&& p90 - p10 >= 30
                    &&& p90 - p75 >= 10
                }
            },
            ThresholdPlan::Normal { median } => {
                &&& 11 <= median <= 150
                &&& value_at_rank(hist, (total + 1) / 2, median as int, 127)
            },
        },
{
    lemma_first_reaching_at_rank(hist, (total + 1) / 2, 0, 127);
    lemma_first_reaching_at_rank(hist, percentile_target(total, 10), 0, 255);
    lemma_first_reaching_at_rank(hist, percentile_target(total, 25), 0, 255);
    lemma_first_reaching_at_rank(hist, percentile_target(total, 70), 0, 255);
    lemma_first_reaching_at_rank(hist, percentile_target(total, 75), 0, 255);
    lemma_first_reaching_at_rank(hist, percentile_target(total, 85), 0, 255);
    lemma_first_reaching_at_rank(hist, percentile_target(total, 90), 0, 255);
    lemma_percentile_monotone(hist, total, 70, 85);
    lemma_percentile_monotone(hist, total, 25, 75);
    let p10 = percentile_spec(hist, total, 10) as int;
    let p75 = percentile_spec(hist, total, 75) as int;
    let p90 = percentile_spec(hist, total, 90) as int;
    assert(value_at_rank(hist, percentile_target(total, 10), p10, 255));
    assert(value_at_rank(hist, percentile_target(total, 75), p75, 255));
    assert(value_at_rank(hist, percentile_target(total, 90), p90, 255));
}

} // verus!

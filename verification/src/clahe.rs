//! The integer core of CLAHE (contrast limited adaptive histogram equalization):
//! the histogram of a tile, clipping it at the contrast limit with the excess spread
//! back over all bins, and the cumulative counts that the tile's lookup table is
//! drawn from.
use vstd::prelude::*;

verus! {

/// Number of histogram bins (8-bit grayscale).
pub const BINS: usize = 256;

/// The sum of the counts in `s`.
pub open spec fn total(s: Seq<u32>) -> int
    decreases s.len(),
{
    if s.len() == 0 {
        0
    } else {
        total(s.drop_last()) + s.last()
    }
}

/// Replacing one count changes the total by the difference.
pub proof fn lemma_total_update(s: Seq<u32>, i: int, v: u32)
    requires
        0 <= i < s.len(),
    ensures
        total(s.update(i, v)) == total(s) - s[i] + v,
    decreases s.len(),
{
    if i < s.len() - 1 {
        lemma_total_update(s.drop_last(), i, v);
        assert(s.update(i, v).drop_last() =~= s.drop_last().update(i, v));
    } else {
        assert(s.update(i, v).drop_last() =~= s.drop_last());
    }
}

/// No single count exceeds the total.
pub proof fn lemma_count_le_total(s: Seq<u32>, i: int)
    requires
        0 <= i < s.len(),
    ensures
        s[i] <= total(s),
        0 <= total(s),
    decreases s.len(),
{
    if i < s.len() - 1 {
        lemma_count_le_total(s.drop_last(), i);
        assert(s.drop_last()[i] == s[i]);
    } else if s.len() > 1 {
        lemma_count_le_total(s.drop_last(), 0);
    } else {
        assert(total(s.drop_last()) == 0);
    }
}

/// How many pixels in columns `x0..x` of row `y` hold the value `b`.
pub open spec fn row_count(pixels: Seq<u8>, width: int, y: int, x0: int, x: int, b: int) -> nat
    decreases x - x0,
{
    if x <= x0 {
        0
    } else {
        row_count(pixels, width, y, x0, x - 1, b) + if pixels[y * width + x - 1] == b {
            1nat
        } else {
            0nat
        }
    }
}

/// How many pixels in columns `x0..x1` of rows `y0..y` hold the value `b`.
pub open spec fn tile_count(
    pixels: Seq<u8>,
    width: int,
    x0: int,
    x1: int,
    y0: int,
    y: int,
    b: int,
) -> nat
    decreases y - y0,
{
    if y <= y0 {
        0
    } else {
        tile_count(pixels, width, x0, x1, y0, y - 1, b) + row_count(pixels, width, y - 1, x0, x1, b)
    }
}

proof fn lemma_pixel_in_bounds(width: int, height: int, x: int, y: int)
    requires
        0 <= x < width,
        0 <= y < height,
    ensures
        0 <= y * width + x < width * height,
{
    assert(y * width + x < width * height) by (nonlinear_arith)
        requires
            0 <= x < width,
            0 <= y < height,
    ;
    assert(0 <= y * width) by (nonlinear_arith)
        requires
            0 <= y,
            0 <= width,
    ;
}

/// The histogram of the tile in columns `x0..x1`, rows `y0..y1` of a grayscale image.
pub fn tile_histogram(pixels: &Vec<u8>, width: u32, height: u32, x0: u32, x1: u32, y0: u32, y1: u32) -> (hist: Vec<u32>)
    requires
        pixels.len() == width * height,
        x0 <= x1 <= width,
        y0 <= y1 <= height,
        (x1 - x0) * (y1 - y0) <= u32::MAX,
    ensures
        hist.len() == BINS,
        forall|b: int|
            0 <= b < BINS ==> #[trigger] hist@[b] == tile_count(
                pixels@,
                width as int,
                x0 as int,
                x1 as int,
                y0 as int,
                y1 as int,
                b,
            ),
        total(hist@) == (x1 - x0) * (y1 - y0),
{
    let mut hist: Vec<u32> = Vec::new();
    let mut k: usize = 0;
    while k < BINS
        invariant
            k <= BINS,
            hist.len() == k,
            forall|b: int| 0 <= b < k ==> #[trigger] hist@[b] == 0,
            total(hist@) == 0,
        decreases BINS - k,
    {
        let ghost before = hist@;
        hist.push(0);
        assert(hist@.drop_last() =~= before);
        k += 1;
    }
    let tw = x1 - x0;
    let mut y = y0;
    while y < y1
        invariant
            pixels.len() == width * height,
            x0 <= x1 <= width,
            y0 <= y <= y1 <= height,
            tw == x1 - x0,
            tw * (y1 - y0) <= u32::MAX,
            hist.len() == BINS,
            forall|b: int|
                0 <= b < BINS ==> #[trigger] hist@[b] == tile_count(
                    pixels@,
                    width as int,
                    x0 as int,
                    x1 as int,
                    y0 as int,
                    y as int,
                    b,
                ),
            total(hist@) == tw * (y - y0),
        decreases y1 - y,
    {
        let mut x = x0;
        proof {
            assert forall|b: int| 0 <= b < BINS implies #[trigger] hist@[b] <= total(hist@) by {
                lemma_count_le_total(hist@, b);
            }
            assert(tw * (y - y0) + tw <= tw * (y1 - y0)) by (nonlinear_arith)
                requires
                    y < y1,
                    0 <= tw,
            ;
        }
        while x < x1
            invariant
                pixels.len() == width * height,
                x0 <= x <= x1 <= width,
                y0 <= y < y1 <= height,
                tw == x1 - x0,
                tw * (y - y0) + tw <= u32::MAX,
                hist.len() == BINS,
                forall|b: int|
                    0 <= b < BINS ==> #[trigger] hist@[b] == tile_count(
                        pixels@,
                        width as int,
                        x0 as int,
                        x1 as int,
                        y0 as int,
                        y as int,
                        b,
                    ) + row_count(pixels@, width as int, y as int, x0 as int, x as int, b),
                total(hist@) == tw * (y - y0) + (x - x0),
                forall|b: int| 0 <= b < BINS ==> #[trigger] hist@[b] <= total(hist@),
            decreases x1 - x,
        {
            proof {
                lemma_pixel_in_bounds(width as int, height as int, x as int, y as int);
            }
            let p = pixels[(y as usize) * (width as usize) + (x as usize)] as usize;
            let ghost before = hist@;
            let v = hist[p] + 1;
            hist.set(p, v);
            proof {
                lemma_total_update(before, p as int, v);
                assert forall|b: int| 0 <= b < BINS implies #[trigger] hist@[b] == tile_count(
                    pixels@,
                    width as int,
                    x0 as int,
                    x1 as int,
                    y0 as int,
                    y as int,
                    b,
                ) + row_count(pixels@, width as int, y as int, x0 as int, x + 1, b) by {
                    assert(row_count(pixels@, width as int, y as int, x0 as int, x + 1, b)
                        == row_count(pixels@, width as int, y as int, x0 as int, x as int, b) + if pixels@[y * width + x] == b {
                        1nat
                    } else {
                        0nat
                    });
                }
            }
            x += 1;
        }
        proof {
            assert(tw * (y - y0) + tw == tw * (y + 1 - y0)) by (nonlinear_arith);
            assert forall|b: int| 0 <= b < BINS implies #[trigger] hist@[b] == tile_count(
                pixels@,
                width as int,
                x0 as int,
                x1 as int,
                y0 as int,
                y + 1,
                b,
            ) by {}
        }
        y += 1;
    }
    hist
}

} // verus!

verus! {

/// The counts with every count above `limit` cut down to it.
pub open spec fn clip_at(s: Seq<u32>, limit: u32) -> Seq<u32> {
    s.map_values(|v: u32| if v > limit { limit } else { v })
}

/// How much the counts of `s` exceed `limit` in all.
pub open spec fn excess_over(s: Seq<u32>, limit: u32) -> int
    decreases s.len(),
{
    if s.len() == 0 {
        0
    } else {
        excess_over(s.drop_last(), limit) + if s.last() > limit {
            s.last() - limit
        } else {
            0
        }
    }
}

/// The stride at which the `rem` leftover counts are handed out one by one.
pub open spec fn spread_step(rem: int) -> int {
    if rem > 0 {
        if 256int / rem > 1 {
            256int / rem
        } else {
            1
        }
    } else {
        256
    }
}

/// Bin `i` is one of the `rem` bins, `spread_step(rem)` apart from bin 0 on, that
/// receive one of the leftover counts.
pub open spec fn gets_leftover(i: int, rem: int) -> bool {
    rem > 0 && i % spread_step(rem) == 0 && i / spread_step(rem) < rem
}

/// Bin `i` after clipping `h` at `limit`: the excess is spread evenly over all bins,
/// and what does not divide evenly goes one count each to the leftover bins.
pub open spec fn clipped_bin(h: Seq<u32>, limit: u32, i: int) -> int {
    let e = excess_over(h, limit);
    clip_at(h, limit)[i] + e / 256 + if gets_leftover(i, e % 256) {
        1int
    } else {
        0int
    }
}

/// Clipping moves exactly the excess out of the counts.
pub proof fn lemma_clip_total(s: Seq<u32>, limit: u32)
    ensures
        total(clip_at(s, limit)) + excess_over(s, limit) == total(s),
        0 <= excess_over(s, limit),
    decreases s.len(),
{
    if s.len() > 0 {
        lemma_clip_total(s.drop_last(), limit);
        assert(clip_at(s, limit).drop_last() =~= clip_at(s.drop_last(), limit));
    }
}

/// A prefix never exceeds the limit by more than the whole.
pub proof fn lemma_excess_prefix(s: Seq<u32>, limit: u32, i: int)
    requires
        0 <= i <= s.len(),
    ensures
        excess_over(s.take(i), limit) <= excess_over(s, limit),
    decreases s.len(),
{
    if i < s.len() {
        lemma_excess_prefix(s.drop_last(), limit, i);
        assert(s.drop_last().take(i) =~= s.take(i));
    } else {
        assert(s.take(i) =~= s);
    }
}

/// Counts never sum to less than zero.
pub proof fn lemma_total_nonneg(s: Seq<u32>)
    ensures
        0 <= total(s),
    decreases s.len(),
{
    if s.len() > 0 {
        lemma_total_nonneg(s.drop_last());
    }
}

proof fn lemma_step_multiple(k: int, step: int)
    requires
        step > 0,
        k >= 0,
    ensures
        (step * k) % step == 0,
        (step * k) / step == k,
{
    vstd::arithmetic::div_mod::lemma_mod_multiples_basic(k, step);
    vstd::arithmetic::div_mod::lemma_div_multiples_vanish(k, step);
    assert(k * step == step * k) by (nonlinear_arith);
}

proof fn lemma_same_multiple(j: int, k: int, step: int)
    requires
        step > 0,
        j >= 0,
        j % step == 0,
        j / step == k,
    ensures
        j == step * k,
{
    vstd::arithmetic::div_mod::lemma_fundamental_div_mod(j, step);
}

proof fn lemma_step_fits(rem: int)
    requires
        0 < rem < 256,
    ensures
        spread_step(rem) * rem <= 256,
        spread_step(rem) >= 1,
{
    let q = 256int / rem;
    vstd::arithmetic::div_mod::lemma_fundamental_div_mod(256, rem);
    assert(q >= 1) by {
        vstd::arithmetic::div_mod::lemma_div_is_ordered(rem, 256, rem);
        vstd::arithmetic::div_mod::lemma_div_by_self(rem);
    }
    assert(rem * q <= 256);
    assert(q * rem == rem * q) by (nonlinear_arith);
}

/// Cuts every bin at `limit` and spreads the cut-off counts back over all bins, as
/// CLAHE does before equalizing a tile.
pub fn clip_histogram(hist: &mut Vec<u32>, limit: u32)
    requires
        old(hist).len() == BINS,
        total(old(hist)@) <= u32::MAX,
    ensures
        final(hist).len() == BINS,
        forall|i: int| 0 <= i < BINS ==> #[trigger] final(hist)@[i] == clipped_bin(old(hist)@, limit, i),
        total(final(hist)@) == total(old(hist)@),
{
    let ghost h0 = hist@;
    let ghost clipped = clip_at(h0, limit);
    proof {
        lemma_clip_total(h0, limit);
    }
    let mut excess: u32 = 0;
    let mut i: usize = 0;
    while i < BINS
        invariant
            hist.len() == BINS,
            i <= BINS,
            h0.len() == BINS,
            clipped == clip_at(h0, limit),
            total(h0) <= u32::MAX,
            total(clipped) + excess_over(h0, limit) == total(h0),
            excess == excess_over(h0.take(i as int), limit),
            forall|j: int| 0 <= j < i ==> #[trigger] hist@[j] == clipped[j],
            forall|j: int| i <= j < BINS ==> #[trigger] hist@[j] == h0[j],
        decreases BINS - i,
    {
        proof {
            assert(h0.take(i + 1).drop_last() =~= h0.take(i as int));
            lemma_excess_prefix(h0, limit, i + 1);
            lemma_total_nonneg(clipped);
        }
        let b = hist[i];
        if b > limit {
            excess = excess + (b - limit);
            hist.set(i, limit);
        }
        i += 1;
    }
    assert(h0.take(BINS as int) =~= h0);
    let ghost base = hist@;
    assert(base =~= clipped);
    let add = excess / 256;
    let rem = excess % 256;
    proof {
        assert forall|j: int| 0 <= j < BINS implies #[trigger] clipped[j] + excess <= total(h0) by {
            lemma_count_le_total(clipped, j);
        }
    }
    let mut k: usize = 0;
    while k < BINS
        invariant
            hist.len() == BINS,
            k <= BINS,
            base == clipped,
            total(clipped) + excess == total(h0),
            total(h0) <= u32::MAX,
            add == excess / 256,
            forall|j: int| 0 <= j < BINS ==> #[trigger] clipped[j] + excess <= total(h0),
            forall|j: int| 0 <= j < k ==> #[trigger] hist@[j] == clipped[j] + add,
            forall|j: int| k <= j < BINS ==> #[trigger] hist@[j] == clipped[j],
            total(hist@) == total(clipped) + k * add,
        decreases BINS - k,
    {
        let ghost before = hist@;
        let v = hist[k] + add;
        hist.set(k, v);
        proof {
            lemma_total_update(before, k as int, v);
            assert((k + 1) * add == k * add + add) by (nonlinear_arith);
        }
        k += 1;
    }
    let ghost spread = hist@;
    let step: usize = if rem > 0 {
        let q = BINS / (rem as usize);
        if q > 1 { q } else { 1 }
    } else {
        BINS
    };
    proof {
        if rem > 0 {
            lemma_step_fits(rem as int);
        }
    }
    let mut left = rem;
    let mut i: usize = 0;
    while left > 0 && i < BINS
        invariant
            hist.len() == BINS,
            spread.len() == BINS,
            step == spread_step(rem as int),
            step >= 1,
            rem > 0 ==> step * rem <= 256,
            rem == excess % 256,
            add == excess / 256,
            left <= rem,
            i == step * (rem - left),
            total(clipped) + excess == total(h0),
            total(h0) <= u32::MAX,
            forall|j: int| 0 <= j < BINS ==> #[trigger] spread[j] == clipped[j] + add,
            forall|j: int| 0 <= j < BINS ==> #[trigger] clipped[j] + excess <= total(h0),
            forall|j: int|
                0 <= j < BINS ==> #[trigger] hist@[j] == spread[j] + if j % (step as int) == 0 && j / (step as int)
                    < rem - left {
                    1int
                } else {
                    0int
                },
            total(hist@) == total(spread) + (rem - left),
        decreases left,
    {
        let ghost before = hist@;
        proof {
            lemma_step_multiple((rem - left) as int, step as int);
            assert(hist@[i as int] == spread[i as int]);
            assert(add + 1 <= excess) by (nonlinear_arith)
                requires
                    add == excess / 256,
                    excess % 256 > 0,
            ;
        }
        let v = hist[i] + 1;
        hist.set(i, v);
        proof {
            lemma_total_update(before, i as int, v);
            assert forall|j: int| 0 <= j < BINS implies #[trigger] hist@[j] == spread[j] + if j
                % (step as int) == 0 && j / (step as int) < rem - (left - 1) {
                1int
            } else {
                0int
            } by {
                if j % (step as int) == 0 && j / (step as int) == rem - left {
                    lemma_same_multiple(j, (rem - left) as int, step as int);
                }
            }
        }
        proof {
            assert(step * (rem - left + 1) == step * (rem - left) + step) by (nonlinear_arith);
        }
        left -= 1;
        i += step;
    }
    proof {
        if left > 0 {
            assert(step * (rem - left) <= step * rem - step) by (nonlinear_arith)
                requires
                    left >= 1,
                    step >= 1,
            ;
        }
        assert(left == 0);
        assert(total(spread) == total(clipped) + 256 * add);
        assert(256 * add + rem == excess) by {
            vstd::arithmetic::div_mod::lemma_fundamental_div_mod(excess as int, 256);
        }
        assert forall|j: int| 0 <= j < BINS implies #[trigger] hist@[j] == clipped_bin(h0, limit, j) by {
            assert(excess as int == excess_over(h0, limit));
        }
    }
}

} // verus!

verus! {

/// A prefix of counts never sums to more than the whole.
pub proof fn lemma_total_prefix(s: Seq<u32>, i: int)
    requires
        0 <= i <= s.len(),
    ensures
        total(s.take(i)) <= total(s),
    decreases s.len(),
{
    if i < s.len() {
        lemma_total_prefix(s.drop_last(), i);
        assert(s.drop_last().take(i) =~= s.take(i));
    } else {
        assert(s.take(i) =~= s);
    }
}

/// The running totals of `hist`: entry `i` counts the pixels with a value up to `i`.
pub fn cumulative(hist: &Vec<u32>) -> (cdf: Vec<u32>)
    requires
        total(hist@) <= u32::MAX,
    ensures
        cdf.len() == hist.len(),
        forall|i: int| 0 <= i < hist.len() ==> #[trigger] cdf@[i] == total(hist@.take(i + 1)),
{
    let mut cdf: Vec<u32> = Vec::new();
    let mut running: u32 = 0;
    let n = hist.len();
    assert(hist@.take(0) =~= Seq::<u32>::empty());
    for i in 0..n
        invariant
            n == hist.len(),
            total(hist@) <= u32::MAX,
            cdf.len() == i,
            running == total(hist@.take(i as int)),
            forall|j: int| 0 <= j < i ==> #[trigger] cdf@[j] == total(hist@.take(j + 1)),
    {
        proof {
            lemma_total_prefix(hist@, i + 1);
            assert(hist@.take(i + 1).drop_last() =~= hist@.take(i as int));
        }
        running = running + hist[i];
        cdf.push(running);
    }
    cdf
}

/// The equalization counts of one tile: its histogram, clipped at `limit` with the
/// excess spread back, then accumulated.
pub fn equalize_tile(
    pixels: &Vec<u8>,
    width: u32,
    height: u32,
    x0: u32,
    x1: u32,
    y0: u32,
    y1: u32,
    limit: u32,
) -> (cdf: Vec<u32>)
    requires
        pixels.len() == width * height,
        x0 <= x1 <= width,
        y0 <= y1 <= height,
        (x1 - x0) * (y1 - y0) <= u32::MAX,
    ensures
        cdf.len() == BINS,
        forall|i: int|
            0 <= i < BINS ==> #[trigger] cdf@[i] == total(
                Seq::new(
                    BINS as nat,
                    |b: int|
                        clipped_bin(
                            tile_histogram_spec(pixels@, width as int, x0 as int, x1 as int, y0 as int, y1 as int),
                            limit,
                            b,
                        ) as u32,
                ).take(i + 1),
            ),
        cdf@[BINS - 1] == (x1 - x0) * (y1 - y0),
{
    let mut hist = tile_histogram(pixels, width, height, x0, x1, y0, y1);
    let ghost h0 = hist@;
    assert(h0 =~= tile_histogram_spec(pixels@, width as int, x0 as int, x1 as int, y0 as int, y1 as int));
    clip_histogram(&mut hist, limit);
    let ghost clipped = Seq::new(
        BINS as nat,
        |b: int|
            clipped_bin(
                tile_histogram_spec(pixels@, width as int, x0 as int, x1 as int, y0 as int, y1 as int),
                limit,
                b,
            ) as u32,
    );
    assert(hist@ =~= clipped);
    let cdf = cumulative(&hist);
    assert(hist@.take(BINS as int) =~= hist@);
    cdf
}

/// The histogram of a tile as a sequence of counts.
pub open spec fn tile_histogram_spec(
    pixels: Seq<u8>,
    width: int,
    x0: int,
    x1: int,
    y0: int,
    y1: int,
) -> Seq<u32> {
    Seq::new(BINS as nat, |b: int| tile_count(pixels, width, x0, x1, y0, y1, b) as u32)
}

/// `index` clamped to the tile indices `0..grid`.
pub fn clamp_tile(index: i32, grid: u32) -> (r: u32)
    requires
        1 <= grid <= i32::MAX,
    ensures
        r == if index < 0 {
            0
        } else if index >= grid {
            grid - 1
        } else {
            index as int
        },
{
    if index < 0 {
        0
    } else if index as u32 >= grid {
        grid - 1
    } else {
        index as u32
    }
}

} // verus!

verus! {

/// Counting pixels of one row splits at any column: columns `x0..x1` hold as many
/// pixels of value `b` as columns `x0..xm` and `xm..x1` together.
pub proof fn lemma_row_count_split(
    pixels: Seq<u8>,
    width: int,
    y: int,
    x0: int,
    xm: int,
    x1: int,
    b: int,
)
    requires
        x0 <= xm <= x1,
    ensures
        row_count(pixels, width, y, x0, x1, b) == row_count(pixels, width, y, x0, xm, b)
            + row_count(pixels, width, y, xm, x1, b),
    decreases x1 - xm,
{
    if x1 > xm {
        lemma_row_count_split(pixels, width, y, x0, xm, x1 - 1, b);
    }
}

/// A tile splits at any column: the counts of `x0..x1` are those of `x0..xm` plus those
/// of `xm..x1`.
pub proof fn lemma_tile_count_split_columns(
    pixels: Seq<u8>,
    width: int,
    x0: int,
    xm: int,
    x1: int,
    y0: int,
    y1: int,
    b: int,
)
    requires
        x0 <= xm <= x1,
    ensures
        tile_count(pixels, width, x0, x1, y0, y1, b) == tile_count(pixels, width, x0, xm, y0, y1, b)
            + tile_count(pixels, width, xm, x1, y0, y1, b),
    decreases y1 - y0,
{
    if y1 > y0 {
        lemma_tile_count_split_columns(pixels, width, x0, xm, x1, y0, y1 - 1, b);
        lemma_row_count_split(pixels, width, y1 - 1, x0, xm, x1, b);
    }
}

/// A tile splits at any row: the counts of rows `y0..y1` are those of `y0..ym` plus
/// those of `ym..y1`.
pub proof fn lemma_tile_count_split_rows(
    pixels: Seq<u8>,
    width: int,
    x0: int,
    x1: int,
    y0: int,
    ym: int,
    y1: int,
    b: int,
)
    requires
        y0 <= ym <= y1,
    ensures
        tile_count(pixels, width, x0, x1, y0, y1, b) == tile_count(pixels, width, x0, x1, y0, ym, b)
            + tile_count(pixels, width, x0, x1, ym, y1, b),
    decreases y1 - ym,
{
    if y1 > ym {
        lemma_tile_count_split_rows(pixels, width, x0, x1, y0, ym, y1 - 1, b);
    }
}

/// A one-pixel tile at column `x`, row `y` counts 1 for the value stored at
/// `pixels[y * width + x]` and 0 for every other value.
pub proof fn lemma_tile_count_single_pixel(pixels: Seq<u8>, width: int, x: int, y: int, b: int)
    ensures
        tile_count(pixels, width, x, x + 1, y, y + 1, b) == if pixels[y * width + x] == b {
            1int
        } else {
            0int
        },
{
    assert(row_count(pixels, width, y, x, x, b) == 0);
    assert(tile_count(pixels, width, x, x + 1, y, y, b) == 0);
}

/// The value of the pixel in column `x`, row `y` of a row-major image `width` wide.
pub open spec fn pixel_at(pixels: Seq<u8>, width: int, x: int, y: int) -> u8 {
    pixels[y * width + x]
}

/// A tile whose pixels all hold `v` counts every one of its pixels in bin `v`.
pub proof fn lemma_uniform_tile(
    pixels: Seq<u8>,
    width: int,
    x0: int,
    x1: int,
    y0: int,
    y1: int,
    v: int,
)
    requires
        x0 <= x1,
        y0 <= y1,
        forall|x: int, y: int|
            x0 <= x < x1 && y0 <= y < y1 ==> #[trigger] pixel_at(pixels, width, x, y) == v,
    ensures
        tile_count(pixels, width, x0, x1, y0, y1, v) == (x1 - x0) * (y1 - y0),
    decreases y1 - y0, x1 - x0,
{
    if y1 > y0 && x1 > x0 {
        lemma_tile_count_split_rows(pixels, width, x0, x1, y0, y1 - 1, y1, v);
        lemma_uniform_tile(pixels, width, x0, x1, y0, y1 - 1, v);
        lemma_tile_count_split_columns(pixels, width, x0, x1 - 1, x1, y1 - 1, y1, v);
        lemma_uniform_tile(pixels, width, x0, x1 - 1, y1 - 1, y1, v);
        lemma_tile_count_single_pixel(pixels, width, x1 - 1, y1 - 1, v);
        assert(pixel_at(pixels, width, x1 - 1, y1 - 1) == v);
        assert((x1 - x0) * (y1 - y0) == (x1 - x0) * (y1 - 1 - y0) + (x1 - 1 - x0) * 1 + 1)
            by (nonlinear_arith);
    } else if y1 > y0 {
        lemma_tile_count_split_rows(pixels, width, x0, x1, y0, y1 - 1, y1, v);
        lemma_uniform_tile(pixels, width, x0, x1, y0, y1 - 1, v);
        assert(row_count(pixels, width, y1 - 1, x0, x1, v) == 0);
        assert((x1 - x0) * (y1 - y0) == 0) by (nonlinear_arith)
            requires
                x1 == x0,
        ;
        assert((x1 - x0) * (y1 - 1 - y0) == 0) by (nonlinear_arith)
            requires
                x1 == x0,
        ;
    } else {
        assert((x1 - x0) * (y1 - y0) == 0) by (nonlinear_arith)
            requires
                y1 == y0,
        ;
    }
}

} // verus!

verus! {

proof fn lemma_no_excess(s: Seq<u32>, limit: u32)
    requires
        forall|i: int| 0 <= i < s.len() ==> #[trigger] s[i] <= limit,
    ensures
        excess_over(s, limit) == 0,
    decreases s.len(),
{
    if s.len() > 0 {
        assert forall|i: int| 0 <= i < s.len() - 1 implies #[trigger] s.drop_last()[i] <= limit by {
            assert(s.drop_last()[i] == s[i]);
        }
        lemma_no_excess(s.drop_last(), limit);
        assert(s.last() == s[s.len() - 1]);
    }
}

/// A histogram with no bin above the limit comes out of clipping unchanged.
pub proof fn lemma_clip_below_limit(h: Seq<u32>, limit: u32, i: int)
    requires
        0 <= i < h.len(),
        forall|j: int| 0 <= j < h.len() ==> #[trigger] h[j] <= limit,
    ensures
        clipped_bin(h, limit, i) == h[i],
{
    lemma_no_excess(h, limit);
}

/// Clipping cuts every bin to at most `limit`, then every bin gets the same share of
/// what was cut off, and some bins one count more: each bin ends between
/// `min(h[i], limit) + q` and `min(h[i], limit) + q + 1` for one `q`, the cut-off amount
/// divided by the number of bins. With `lemma_clip_total` and the total that
/// `clip_histogram` keeps, nothing is lost or made up.
pub proof fn lemma_clip_spreads_evenly(h: Seq<u32>, limit: u32)
    requires
        h.len() == BINS,
    ensures
        forall|i: int|
            0 <= i < BINS ==> {
                let kept = if h[i] > limit {
                    limit as int
                } else {
                    h[i] as int
                };
                let q = (total(h) - total(clip_at(h, limit))) / 256;
                kept + q <= #[trigger] clipped_bin(h, limit, i) <= kept + q + 1
            },
{
    lemma_clip_total(h, limit);
}

} // verus!

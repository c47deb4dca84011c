//! Resizing of pages for the layout detector: a separable filter of four taps with
//! 16-bit weights, whose horizontal pass is rounded to bytes.

use crate::float::F32;
use crate::picture;
use vstd::arithmetic::div_mod::*;
use vstd::arithmetic::power2::*;
use vstd::prelude::*;

verus! {

/// Settings of the page processor.
#[derive(Clone, Copy, Debug)]
pub struct DocLayoutPreprocessConfig {
    /// Height and width of the resized page.
    pub target_size: (usize, usize),
    /// What every color byte is multiplied with.
    pub rescale_factor: F32,
}

impl Default for DocLayoutPreprocessConfig {
    fn default() -> (config: Self)
        ensures
            config.target_size == (800usize, 800usize),
            config.rescale_factor == (F32 { bits: 0x3b80_8081 }),
    {
        DocLayoutPreprocessConfig {
            target_size: (800, 800),
            rescale_factor: F32 { bits: 0x3b80_8081 },
        }
    }
}

/// Taps of one output sample: the first input sample, the number of input samples,
/// and for each of the four weights of the filter the input sample it goes to,
/// counted from the first.
#[derive(Clone, Copy, Debug)]
pub struct Taps {
    pub first: usize,
    pub count: usize,
    pub places: [usize; 4],
}

pub open spec fn limited(n: int, low: int, high: int) -> int {
    if n < low {
        low
    } else if n > high {
        high
    } else {
        n
    }
}

/// First input sample of the taps around `index`.
pub open spec fn first_tap(index: int) -> int {
    if index - 1 < 0 {
        0
    } else {
        index - 1
    }
}

/// Number of input samples of the taps around `index`, on a side of `size` samples.
pub open spec fn tap_count(index: int, size: int) -> int {
    let end = if index + 3 < size {
        index + 3
    } else {
        size
    };
    limited(end - first_tap(index), 0, 4)
}

/// Where weight `k` goes: a sample before the side counts for the first one, a sample
/// behind it for the last one.
pub open spec fn tap_place(index: int, size: int, k: int) -> int
    decreases k,
{
    let sample = index - 1 + k;
    let count = tap_count(index, size);
    if sample <= 0 {
        0
    } else if sample >= size - 1 {
        if count == 0 {
            0
        } else {
            count - 1
        }
    } else if k <= 0 {
        0
    } else {
        tap_place(index, size, k - 1) + 1
    }
}

proof fn lemma_tap_place(index: int, size: int, k: int)
    requires
        0 < size,
        -1 <= index < size,
        0 <= k < 4,
    ensures
        0 <= tap_place(index, size, k) < tap_count(index, size),
        0 < index - 1 + k < size - 1 ==> tap_place(index, size, k) == index - 1 + k - first_tap(
            index,
        ),
    decreases k,
{
    if k > 0 {
        lemma_tap_place(index, size, k - 1);
    }
}

/// Every weight of the filter goes to one of the taps.
pub proof fn law_every_weight_has_a_tap(index: int, size: int, k: int)
    requires
        0 < size,
        -1 <= index < size,
        0 <= k < 4,
    ensures
        0 <= tap_place(index, size, k) < tap_count(index, size) <= 4,
        0 <= first_tap(index),
        first_tap(index) + tap_count(index, size) <= size,
{
    lemma_tap_place(index, size, k);
}

/// The taps of an output sample that falls at or behind input sample `index`; -1 is
/// before the first one.
pub fn taps_of(index: i64, size: usize) -> (taps: Taps)
    requires
        size <= isize::MAX,
        -1 <= index < size,
    ensures
        taps.first == first_tap(index as int),
        taps.count == tap_count(index as int, size as int),
        forall|k: int|
            0 <= k < 4 ==> #[trigger] taps.places@[k] == tap_place(index as int, size as int, k),
{
    if size == 0 {
        return Taps { first: 0, count: 0, places: [0, 0, 0, 0] };
    }
    let first: usize = if index - 1 < 0 {
        0
    } else {
        (index - 1) as usize
    };
    let end: u64 = if ((index + 1) as u64) + 2 < size as u64 {
        (index + 1) as u64 + 2
    } else {
        size as u64
    };
    proof {
        lemma_tap_place(index as int, size as int, 0);
    }
    let count: usize = (end - first as u64) as usize;
    let mut places: [usize; 4] = [0, 0, 0, 0];
    let mut k: usize = 0;
    let mut place: usize = 0;
    while k < 4
        invariant
            0 < size <= isize::MAX,
            -1 <= index < size,
            k <= 4,
            count == tap_count(index as int, size as int),
            0 < count <= 4,
            k == 0 ==> place == 0,
            k > 0 ==> place == tap_place(index as int, size as int, k - 1) + 1,
            place <= 4,
            forall|j: int|
                0 <= j < k ==> #[trigger] places@[j] == tap_place(index as int, size as int, j),
        decreases 4 - k,
    {
        let sample: i128 = index as i128 - 1 + k as i128;
        if sample <= 0 {
            place = 0;
        } else if sample >= size as i128 - 1 {
            place = count - 1;
        }
        proof {
            lemma_tap_place(index as int, size as int, k as int);
        }
        places[k] = place;
        place = place + 1;
        k = k + 1;
    }
    Taps { first, count, places }
}

/// Weights of a side: for every output sample the first input sample, the number of
/// input samples, and their weights in units of `2^-precision`.
#[derive(Debug)]
pub struct Uint8BicubicWeights {
    pub index_min: Vec<usize>,
    pub index_size: Vec<usize>,
    pub weights: Vec<[i16; 4]>,
    pub precision: u32,
}

impl Uint8BicubicWeights {
    /// Weights from `size` samples to `target` samples.
    pub open spec fn wf(&self, size: usize, target: usize) -> bool {
        &&& self.index_min@.len() == target
        &&& self.index_size@.len() == target
        &&& self.weights@.len() == target
        &&& 1 <= self.precision <= 22
        &&& forall|i: int|
            #![trigger self.index_min@[i]]
            #![trigger self.index_size@[i]]
            0 <= i < target ==> self.index_min@[i] + self.index_size@[i] <= size
                && self.index_size@[i] <= 4
    }

    /// Whether the weights go from `size` samples to `target` samples.
    pub fn fits(&self, size: usize, target: usize) -> (fits: bool)
        ensures
            fits == self.wf(size, target),
    {
        if self.index_min.len() != target || self.index_size.len() != target || self.weights.len()
            != target || self.precision < 1 || self.precision > 22 {
            return false;
        }
        let mut i: usize = 0;
        while i < target
            invariant
                i <= target,
                self.index_min@.len() == target,
                self.index_size@.len() == target,
                forall|j: int|
                    #![trigger self.index_min@[j]]
                    #![trigger self.index_size@[j]]
                    0 <= j < i ==> self.index_min@[j] + self.index_size@[j] <= size
                        && self.index_size@[j] <= 4,
            decreases target - i,
        {
            if self.index_size[i] > 4 || self.index_size[i] > size || self.index_min[i] > size
                - self.index_size[i] {
                assert(!(self.index_min@[i as int] + self.index_size@[i as int] <= size
                    && self.index_size@[i as int] <= 4));
                return false;
            }
            i = i + 1;
        }
        true
    }
}

/// Sum of the first `n` weighted samples, which stand `stride` apart from `at` on.
pub open spec fn weighted(
    samples: Seq<u8>,
    at: int,
    stride: int,
    weights: Seq<i16>,
    n: int,
) -> int
    decreases n,
{
    if n <= 0 {
        0
    } else {
        weighted(samples, at, stride, weights, n - 1) + samples[at + (n - 1) * stride] * weights[n
            - 1]
    }
}

/// A weighted sum in units of `2^-precision`, rounded, halves up, to a byte.
pub open spec fn as_byte(sum: int, precision: u32) -> u8 {
    let rounded = (sum + pow2((precision - 1) as nat)) / pow2(precision as nat) as int;
    limited(rounded, 0, 255) as u8
}

/// Output sample `out` of a side.
pub open spec fn filtered(
    samples: Seq<u8>,
    at: int,
    stride: int,
    weights: Uint8BicubicWeights,
    out: int,
) -> u8 {
    as_byte(
        weighted(
            samples,
            at + weights.index_min@[out] * stride,
            stride,
            weights.weights@[out]@,
            weights.index_size@[out] as int,
        ),
        weights.precision,
    )
}

/// Rows of `target` pixels from rows of `width` pixels.
pub open spec fn across(
    rgb: Seq<u8>,
    width: int,
    height: int,
    target: int,
    weights: Uint8BicubicWeights,
) -> Seq<u8> {
    Seq::new(
        (height * target * 3) as nat,
        |i: int|
            filtered(
                rgb,
                i / 3 / target * width * 3 + i % 3,
                3,
                weights,
                i / 3 % target,
            ),
    )
}

/// `target` rows from rows of `width` pixels.
pub open spec fn downwards(
    rgb: Seq<u8>,
    width: int,
    target: int,
    weights: Uint8BicubicWeights,
) -> Seq<u8> {
    Seq::new(
        (target * width * 3) as nat,
        |i: int|
            filtered(rgb, i / 3 % width * 3 + i % 3, width * 3, weights, i / 3 / width),
    )
}

fn clamp_u8(value: i64) -> (byte: u8)
    ensures
        byte == limited(value as int, 0, 255),
{
    if value < 0 {
        0
    } else if value > 255 {
        255
    } else {
        value as u8
    }
}

proof fn lemma_sum_bound(samples: Seq<u8>, at: int, stride: int, weights: Seq<i16>, n: int)
    requires
        0 <= n <= 4,
    ensures
        -8_355_840 * n <= weighted(samples, at, stride, weights, n) <= 8_355_840 * n,
    decreases n,
{
    if n > 0 {
        lemma_sum_bound(samples, at, stride, weights, n - 1);
        let a = samples[at + (n - 1) * stride] as int;
        let b = weights[n - 1] as int;
        assert(-8_355_840 <= a * b <= 8_355_840) by (nonlinear_arith)
            requires
                0 <= a <= 255,
                -32768 <= b <= 32767,
        ;
    }
}

/// One output sample.
fn filter_sample(
    samples: &Vec<u8>,
    at: usize,
    stride: usize,
    weights: &Uint8BicubicWeights,
    out: usize,
) -> (byte: u8)
    requires
        out < weights.index_min@.len(),
        out < weights.index_size@.len(),
        out < weights.weights@.len(),
        1 <= weights.precision <= 22,
        weights.index_size@[out as int] <= 4,
        at + (weights.index_min@[out as int] + weights.index_size@[out as int]) * stride
            < samples@.len() + stride,
    ensures
        byte == filtered(samples@, at as int, stride as int, *weights, out as int),
{
    let total: usize = samples.len();
    let first: usize = weights.index_min[out];
    let count: usize = weights.index_size[out];
    let taps: [i16; 4] = weights.weights[out];
    let precision: u32 = weights.precision;
    let ghost base = at + first * stride;
    let mut sum: i64 = 0;
    let mut k: usize = 0;
    while k < count
        invariant
            k <= count <= 4,
            total == samples@.len(),
            taps@ == weights.weights@[out as int]@,
            base == at + first * stride,
            at + (first + count) * stride < samples@.len() + stride,
            sum == weighted(samples@, base, stride as int, taps@, k as int),
        decreases count - k,
    {
        let ghost place = first + k;
        proof {
            lemma_sum_bound(samples@, base, stride as int, taps@, k as int);
            assert((first + count) * stride >= (place + 1) * stride) by (nonlinear_arith)
                requires
                    place + 1 <= first + count,
                    stride >= 0,
            ;
            assert((place + 1) * stride == place * stride + stride) by (nonlinear_arith);
            assert(place * stride == first * stride + k * stride) by (nonlinear_arith)
                requires
                    place == first + k,
            ;
            assert(first * stride >= 0 && k * stride >= 0 && place <= place * stride || stride == 0)
                by (nonlinear_arith)
                requires
                    place == first + k,
                    first >= 0,
                    k >= 0,
                    stride >= 0,
            ;
        }
        let sample: i64 = samples[at + (first * stride + k * stride)] as i64;
        let weight: i64 = taps[k] as i64;
        proof {
            let a = sample as int;
            let b = weight as int;
            assert(-8_355_840 <= a * b <= 8_355_840) by (nonlinear_arith)
                requires
                    0 <= a <= 255,
                    -32768 <= b <= 32767,
            ;
        }
        sum = sum + sample * weight;
        k = k + 1;
    }
    proof {
        lemma_sum_bound(samples@, base, stride as int, taps@, count as int);
        lemma2_to64();
    }
    let half: i64 = power_of_two(precision - 1);
    let unit: i64 = 2 * half;
    // Shifted by a multiple of the unit that makes the sum positive.
    let lift: i64 = 0x1000_0000 * unit;
    proof {
        lemma_pow2_unfold(precision as nat);
        assert(0x1000_0000 <= lift <= 0x1000_0000 * 0x40_0000) by (nonlinear_arith)
            requires
                lift == 0x1000_0000 * unit,
                1 <= unit <= 0x40_0000,
        ;
    }
    let quotient: i64 = (sum + half + lift) / unit - 0x1000_0000;
    proof {
        let n = sum + half;
        lemma_mod_multiples_vanish(0x1000_0000, n, unit as int);
        lemma_fundamental_div_mod(n, unit as int);
        lemma_fundamental_div_mod(n + lift, unit as int);
        let q = n / unit as int;
        let r = n % unit as int;
        assert(unit * 0x1000_0000 + n == n + lift);
        assert(n + lift == unit * (q + 0x1000_0000) + r) by (nonlinear_arith)
            requires
                n == unit * q + r,
                lift == 0x1000_0000 * unit,
        ;
        lemma_mod_bound(n, unit as int);
        assert((q + 0x1000_0000) * unit == unit * (q + 0x1000_0000)) by (nonlinear_arith);
        lemma_fundamental_div_mod_converse(n + lift, unit as int, q + 0x1000_0000, r);
    }
    clamp_u8(quotient)
}

fn power_of_two(n: u32) -> (p: i64)
    requires
        n <= 21,
    ensures
        p == pow2(n as nat),
        1 <= p <= 0x20_0000,
{
    let mut p: i64 = 1;
    let mut i: u32 = 0;
    proof {
        lemma2_to64();
    }
    while i < n
        invariant
            i <= n <= 21,
            p == pow2(i as nat),
            1 <= p <= 0x20_0000,
        decreases n - i,
    {
        proof {
            lemma_pow2_unfold((i + 1) as nat);
            lemma2_to64();
            if i + 1 < 21 {
                lemma_pow2_strictly_increases((i + 1) as nat, 21);
            }
        }
        p = 2 * p;
        i = i + 1;
    }
    p
}

proof fn lemma_place(row: int, column: int, channel: int, width: int)
    requires
        0 <= row,
        0 <= column < width,
        0 <= channel < 3,
    ensures
        ((row * width + column) * 3 + channel) / 3 == row * width + column,
        ((row * width + column) * 3 + channel) % 3 == channel,
        (row * width + column) / width == row,
        (row * width + column) % width == column,
{
    lemma_fundamental_div_mod_converse(
        (row * width + column) * 3 + channel,
        3,
        row * width + column,
        channel,
    );
    lemma_fundamental_div_mod_converse(row * width + column, width, row, column);
}

/// The horizontal pass.
fn resize_across(
    rgb: &Vec<u8>,
    width: usize,
    height: usize,
    target: usize,
    weights: &Uint8BicubicWeights,
) -> (out: Vec<u8>)
    requires
        weights.wf(width, target),
        rgb@.len() >= height * width * 3,
    ensures
        out@ == across(rgb@, width as int, height as int, target as int, *weights),
{
    let total: usize = rgb.len();
    let ghost all = across(rgb@, width as int, height as int, target as int, *weights);
    let ghost w = width as int;
    let ghost t = target as int;
    let mut out: Vec<u8> = Vec::new();
    let mut y: usize = 0;
    assert(height * target * 3 >= 0) by (nonlinear_arith)
        requires
            height >= 0,
            target >= 0,
    ;
    while y < height
        invariant
            w == width,
            t == target,
            total == rgb@.len(),
            weights.wf(width, target),
            rgb@.len() >= height * width * 3,
            all == across(rgb@, w, height as int, t, *weights),
            all.len() == height * t * 3,
            y <= height,
            out@.len() == y * t * 3,
            out@ == all.take(out@.len() as int),
            out@.len() <= all.len(),
        decreases height - y,
    {
        let mut x: usize = 0;
        assert(y * t * 3 <= height * t * 3 && (y + 1) * t * 3 <= height * t * 3)
            by (nonlinear_arith)
            requires
                y + 1 <= height,
                t >= 0,
        ;
        while x < target
            invariant
                w == width,
                t == target,
                total == rgb@.len(),
                weights.wf(width, target),
                rgb@.len() >= height * width * 3,
                all == across(rgb@, w, height as int, t, *weights),
                all.len() == height * t * 3,
                y < height,
                x <= target,
                (y + 1) * t * 3 <= all.len(),
                out@.len() == (y * t + x) * 3,
                out@ == all.take(out@.len() as int),
            decreases target - x,
        {
            assert((y * t + x + 1) * 3 <= (y + 1) * t * 3) by (nonlinear_arith)
                requires
                    x + 1 <= t,
            ;
            let mut channel: usize = 0;
            while channel < 3
                invariant
                    w == width,
                    t == target,
                    total == rgb@.len(),
                    weights.wf(width, target),
                    rgb@.len() >= height * width * 3,
                    all == across(rgb@, w, height as int, t, *weights),
                    all.len() == height * t * 3,
                    y < height,
                    x < target,
                    channel <= 3,
                    (y * t + x + 1) * 3 <= all.len(),
                    out@.len() == (y * t + x) * 3 + channel,
                    out@ == all.take(out@.len() as int),
                decreases 3 - channel,
            {
                let ghost i = (y * t + x) * 3 + channel;
                proof {
                    lemma_place(y as int, x as int, channel as int, t);
                    let end = weights.index_min@[x as int] + weights.index_size@[x as int];
                    assert(y * w * 3 + channel + end * 3 < height * w * 3 + 3) by (nonlinear_arith)
                        requires
                            y + 1 <= height,
                            end <= w,
                            channel < 3,
                            w >= 0,
                    ;
                    assert(y * w * 3 + w * 3 <= height * w * 3) by (nonlinear_arith)
                        requires
                            y + 1 <= height,
                            w >= 0,
                    ;
                    assert(y * w >= 0 && y * w <= y * w * 3) by (nonlinear_arith)
                        requires
                            y >= 0,
                            w >= 0,
                    ;
                    assert(w == 0 ==> y * w * 3 == 0) by (nonlinear_arith);
                }
                out.push(filter_sample(rgb, y * width * 3 + channel, 3, weights, x));
                channel = channel + 1;
                proof {
                    assert(all[i] == out@[i]);
                    assert(out@ == all.take(i + 1));
                }
            }
            x = x + 1;
        }
        y = y + 1;
        assert((y - 1) * t + t == y * t) by (nonlinear_arith);
    }
    assert(all.take(all.len() as int) == all);
    out
}

/// The vertical pass.
fn resize_downwards(
    rgb: &Vec<u8>,
    width: usize,
    height: usize,
    target: usize,
    weights: &Uint8BicubicWeights,
) -> (out: Vec<u8>)
    requires
        weights.wf(height, target),
        rgb@.len() == height * width * 3,
        width * 3 <= usize::MAX,
    ensures
        out@ == downwards(rgb@, width as int, target as int, *weights),
{
    let total: usize = rgb.len();
    let ghost all = downwards(rgb@, width as int, target as int, *weights);
    let ghost w = width as int;
    let ghost t = target as int;
    let mut out: Vec<u8> = Vec::new();
    let mut y: usize = 0;
    assert(target * width * 3 >= 0) by (nonlinear_arith)
        requires
            width >= 0,
            target >= 0,
    ;
    while y < target
        invariant
            w == width,
            t == target,
            total == rgb@.len(),
            weights.wf(height, target),
            rgb@.len() == height * width * 3,
            width * 3 <= usize::MAX,
            all == downwards(rgb@, w, t, *weights),
            all.len() == t * w * 3,
            y <= target,
            out@.len() == y * w * 3,
            out@ == all.take(out@.len() as int),
            out@.len() <= all.len(),
        decreases target - y,
    {
        let mut x: usize = 0;
        assert(y * w * 3 <= t * w * 3 && (y + 1) * w * 3 <= t * w * 3) by (nonlinear_arith)
            requires
                y + 1 <= t,
                w >= 0,
        ;
        while x < width
            invariant
                w == width,
                t == target,
                total == rgb@.len(),
                weights.wf(height, target),
                rgb@.len() == height * width * 3,
                width * 3 <= usize::MAX,
                all == downwards(rgb@, w, t, *weights),
                all.len() == t * w * 3,
                y < target,
                x <= width,
                (y + 1) * w * 3 <= all.len(),
                out@.len() == (y * w + x) * 3,
                out@ == all.take(out@.len() as int),
            decreases width - x,
        {
            assert((y * w + x + 1) * 3 <= (y + 1) * w * 3) by (nonlinear_arith)
                requires
                    x + 1 <= w,
            ;
            let mut channel: usize = 0;
            while channel < 3
                invariant
                    w == width,
                    t == target,
                    total == rgb@.len(),
                    weights.wf(height, target),
                    rgb@.len() == height * width * 3,
                    width * 3 <= usize::MAX,
                    all == downwards(rgb@, w, t, *weights),
                    all.len() == t * w * 3,
                    y < target,
                    x < width,
                    channel <= 3,
                    (y * w + x + 1) * 3 <= all.len(),
                    out@.len() == (y * w + x) * 3 + channel,
                    out@ == all.take(out@.len() as int),
                decreases 3 - channel,
            {
                let ghost i = (y * w + x) * 3 + channel;
                proof {
                    lemma_place(y as int, x as int, channel as int, w);
                    let end = weights.index_min@[y as int] + weights.index_size@[y as int];
                    assert(x * 3 + channel + end * (w * 3) < height * w * 3 + w * 3)
                        by (nonlinear_arith)
                        requires
                            x < w,
                            end <= height,
                            channel < 3,
                            w >= 0,
                    ;
                }
                out.push(filter_sample(rgb, x * 3 + channel, width * 3, weights, y));
                channel = channel + 1;
                proof {
                    assert(all[i] == out@[i]);
                    assert(out@ == all.take(i + 1));
                }
            }
            x = x + 1;
        }
        y = y + 1;
        assert((y - 1) * w + w == y * w) by (nonlinear_arith);
    }
    assert(all.take(all.len() as int) == all);
    out
}

/// A page of `height` rows of `width` pixels, resized to `target_height` rows of
/// `target_width` pixels.
pub open spec fn resized_page(
    rgb: Seq<u8>,
    width: int,
    height: int,
    target_width: int,
    target_height: int,
    x_weights: Uint8BicubicWeights,
    y_weights: Uint8BicubicWeights,
) -> Seq<u8> {
    downwards(
        across(rgb, width, height, target_width, x_weights),
        target_width,
        target_height,
        y_weights,
    )
}

/// Resizes a page: rows first, rounded to bytes, then columns.
pub fn resize_bicubic_torchvision(
    rgb: &Vec<u8>,
    width: usize,
    height: usize,
    target_width: usize,
    target_height: usize,
    x_weights: &Uint8BicubicWeights,
    y_weights: &Uint8BicubicWeights,
) -> (out: Vec<u8>)
    requires
        rgb@.len() >= height * width * 3,
        x_weights.wf(width, target_width),
        y_weights.wf(height, target_height),
        target_width * 3 <= usize::MAX,
    ensures
        out@ == resized_page(
            rgb@,
            width as int,
            height as int,
            target_width as int,
            target_height as int,
            *x_weights,
            *y_weights,
        ),
{
    let rows = resize_across(rgb, width, height, target_width, x_weights);
    proof {
        assert(height * target_width * 3 >= 0) by (nonlinear_arith)
            requires
                height >= 0,
                target_width >= 0,
        ;
    }
    resize_downwards(&rows, target_width, height, target_height, y_weights)
}

/// Resizes a page for the layout detector: its color bytes, and the height and width
/// that it had; nothing where the weights are for other sizes.
pub fn preprocess_page(
    img: &image::DynamicImage,
    config: &DocLayoutPreprocessConfig,
    x_weights: &Uint8BicubicWeights,
    y_weights: &Uint8BicubicWeights,
) -> (page: Option<(Vec<u8>, (usize, usize))>)
    ensures
        page is Some <==> x_weights.wf(
            picture::image_size(*img).0 as usize,
            config.target_size.1,
        ) && y_weights.wf(picture::image_size(*img).1 as usize, config.target_size.0)
            && config.target_size.1 * 3 <= usize::MAX,
        page matches Some((pixels, size)) ==> {
            &&& pixels@ == resized_page(
                picture::image_rgb(*img),
                picture::image_size(*img).0 as int,
                picture::image_size(*img).1 as int,
                config.target_size.1 as int,
                config.target_size.0 as int,
                *x_weights,
                *y_weights,
            )
            &&& size.0 == picture::image_size(*img).1
            &&& size.1 == picture::image_size(*img).0
        },
{
    let width: usize = img.width() as usize;
    let height: usize = img.height() as usize;
    let (target_height, target_width) = config.target_size;
    if !x_weights.fits(width, target_width) || !y_weights.fits(height, target_height)
        || target_width > usize::MAX / 3 {
        return None;
    }
    let rgb = picture::rgb_bytes(img);
    assert(width * height * 3 == height * width * 3) by (nonlinear_arith);
    let pixels = resize_bicubic_torchvision(
        &rgb,
        width,
        height,
        target_width,
        target_height,
        x_weights,
        y_weights,
    );
    Some((pixels, (height, width)))
}

/// Weight `k` of the filter goes to input sample `index - 1 + k`, or to the first or the
/// last sample where that one is outside.
pub proof fn law_weights_go_to_the_nearest_sample(index: int, size: int, k: int)
    requires
        0 < size,
        -1 <= index < size,
        0 <= k < 4,
    ensures
        0 <= index - 1 + k < size ==> first_tap(index) + tap_place(index, size, k) == index - 1 + k,
        index - 1 + k < 0 ==> first_tap(index) + tap_place(index, size, k) == 0,
        index - 1 + k >= size ==> first_tap(index) + tap_place(index, size, k) == size - 1,
{
    lemma_tap_place(index, size, k);
}

/// The weighted sum of up to four samples is the sum of every one of them times its own
/// weight.
pub proof fn law_every_tap_counts(
    samples: Seq<u8>,
    at: int,
    stride: int,
    weights: Seq<i16>,
    n: int,
)
    requires
        0 <= n <= 4,
    ensures
        weighted(samples, at, stride, weights, n) == (if n > 0 {
            samples[at] * weights[0]
        } else {
            0
        }) + (if n > 1 {
            samples[at + stride] * weights[1]
        } else {
            0
        }) + (if n > 2 {
            samples[at + 2 * stride] * weights[2]
        } else {
            0
        }) + (if n > 3 {
            samples[at + 3 * stride] * weights[3]
        } else {
            0
        }),
{
    reveal_with_fuel(weighted, 5);
    assert(0 * stride == 0 && 1 * stride == stride);
}

/// The weighted sum over all taps is the sum over the first ones and the sum over the
/// others.
pub proof fn law_taps_add_up(
    samples: Seq<u8>,
    at: int,
    stride: int,
    weights: Seq<i16>,
    m: int,
    n: int,
)
    requires
        0 <= m <= n <= weights.len(),
    ensures
        weighted(samples, at, stride, weights, n) == weighted(samples, at, stride, weights, m)
            + weighted(samples, at + m * stride, stride, weights.skip(m), n - m),
    decreases n,
{
    if m < n {
        law_taps_add_up(samples, at, stride, weights, m, n - 1);
        assert(weights.skip(m)[n - 1 - m] == weights[n - 1]);
        assert(at + m * stride + (n - 1 - m) * stride == at + (n - 1) * stride)
            by (nonlinear_arith);
    }
}

/// A sum becomes the byte nearest to it in units of `2^-precision`, the greater one of
/// two, and the first or the last byte where it is outside.
pub proof fn law_sums_become_the_nearest_byte(sum: int, precision: u32)
    requires
        1 <= precision,
    ensures
        2 * sum < pow2(precision as nat) ==> as_byte(sum, precision) == 0,
        2 * sum >= 509 * pow2(precision as nat) ==> as_byte(sum, precision) == 255,
        pow2(precision as nat) <= 2 * sum < 509 * pow2(precision as nat) ==> (2 * as_byte(
            sum,
            precision,
        ) - 1) * pow2(precision as nat) <= 2 * sum < (2 * as_byte(sum, precision) + 1) * pow2(
            precision as nat,
        ),
{
    let half = pow2((precision - 1) as nat) as int;
    let unit = pow2(precision as nat) as int;
    lemma_pow2_unfold(precision as nat);
    lemma_pow2_pos(precision as nat);
    let q = (sum + half) / unit;
    lemma_fundamental_div_mod(sum + half, unit);
    lemma_mod_bound(sum + half, unit);
    let r = (sum + half) % unit;
    assert(unit * q == q * unit) by (nonlinear_arith);
    if 2 * sum < unit {
        assert(q <= 0) by (nonlinear_arith)
            requires
                sum + half == q * unit + r,
                0 <= r,
                sum + half < unit,
                unit > 0,
        ;
    } else if 2 * sum >= 509 * unit {
        assert(q >= 255) by (nonlinear_arith)
            requires
                sum + half == q * unit + r,
                r < unit,
                sum + half >= 255 * unit,
                unit > 0,
        ;
    } else {
        assert(1 <= q <= 254) by (nonlinear_arith)
            requires
                sum + half == q * unit + r,
                0 <= r < unit,
                unit <= sum + half < 255 * unit,
                unit > 0,
        ;
        assert((2 * q - 1) * unit == 2 * (q * unit) - unit) by (nonlinear_arith);
        assert((2 * q + 1) * unit == 2 * (q * unit) + unit) by (nonlinear_arith);
    }
}

/// Color `channel` of pixel `x` of row `y` is made, in rows of `target` pixels, of the same
/// color of the pixels of the same row from `index_min` on.
pub proof fn law_rows_are_filtered_by_themselves(
    rgb: Seq<u8>,
    width: int,
    height: int,
    target: int,
    weights: Uint8BicubicWeights,
    y: int,
    x: int,
    channel: int,
)
    requires
        0 <= y < height,
        0 <= x < target,
        0 <= channel < 3,
        weights.index_size@[x] <= 4,
    ensures
        ({
            let all = across(rgb, width, height, target, weights);
            let first = weights.index_min@[x];
            let count = weights.index_size@[x];
            let taps = weights.weights@[x]@;
            &&& all.len() == height * target * 3
            &&& all[(y * target + x) * 3 + channel] == as_byte(
                (if count > 0 {
                    rgb[(y * width + first) * 3 + channel] * taps[0]
                } else {
                    0
                }) + (if count > 1 {
                    rgb[(y * width + first + 1) * 3 + channel] * taps[1]
                } else {
                    0
                }) + (if count > 2 {
                    rgb[(y * width + first + 2) * 3 + channel] * taps[2]
                } else {
                    0
                }) + (if count > 3 {
                    rgb[(y * width + first + 3) * 3 + channel] * taps[3]
                } else {
                    0
                }),
                weights.precision,
            )
        }),
{
    let first = weights.index_min@[x] as int;
    let at = y * width * 3 + channel + first * 3;
    lemma_place(y, x, channel, target);
    assert((y * target + x) * 3 + channel < height * target * 3 && 0 <= (y * target + x) * 3
        + channel) by (nonlinear_arith)
        requires
            0 <= y,
            y + 1 <= height,
            0 <= x < target,
            0 <= channel < 3,
    ;
    law_every_tap_counts(
        rgb,
        at,
        3,
        weights.weights@[x]@,
        weights.index_size@[x] as int,
    );
    assert((y * width + first) * 3 + channel == at) by (nonlinear_arith)
        requires
            at == y * width * 3 + channel + first * 3,
    ;
}

/// Color `channel` of pixel `x` of row `y` is made, in `target` rows of `width` pixels, of
/// the same color of pixel `x` of the rows from `index_min` on.
pub proof fn law_columns_are_filtered_by_themselves(
    rgb: Seq<u8>,
    width: int,
    target: int,
    weights: Uint8BicubicWeights,
    y: int,
    x: int,
    channel: int,
)
    requires
        0 <= y < target,
        0 <= x < width,
        0 <= channel < 3,
        weights.index_size@[y] <= 4,
    ensures
        ({
            let all = downwards(rgb, width, target, weights);
            let first = weights.index_min@[y];
            let count = weights.index_size@[y];
            let taps = weights.weights@[y]@;
            &&& all.len() == target * width * 3
            &&& all[(y * width + x) * 3 + channel] == as_byte(
                (if count > 0 {
                    rgb[(first * width + x) * 3 + channel] * taps[0]
                } else {
                    0
                }) + (if count > 1 {
                    rgb[((first + 1) * width + x) * 3 + channel] * taps[1]
                } else {
                    0
                }) + (if count > 2 {
                    rgb[((first + 2) * width + x) * 3 + channel] * taps[2]
                } else {
                    0
                }) + (if count > 3 {
                    rgb[((first + 3) * width + x) * 3 + channel] * taps[3]
                } else {
                    0
                }),
                weights.precision,
            )
        }),
{
    let first = weights.index_min@[y] as int;
    let at = x * 3 + channel + first * (width * 3);
    lemma_place(y, x, channel, width);
    assert((y * width + x) * 3 + channel < target * width * 3 && 0 <= (y * width + x) * 3
        + channel) by (nonlinear_arith)
        requires
            0 <= y,
            y + 1 <= target,
            0 <= x < width,
            0 <= channel < 3,
    ;
    law_every_tap_counts(
        rgb,
        at,
        width * 3,
        weights.weights@[y]@,
        weights.index_size@[y] as int,
    );
    assert forall|k: int| at + k * (width * 3) == #[trigger] ((first + k) * width + x) * 3
        + channel by {
        assert(at + k * (width * 3) == ((first + k) * width + x) * 3 + channel)
            by (nonlinear_arith)
            requires
                at == x * 3 + channel + first * (width * 3),
        ;
    }
    assert(((first + 0) * width + x) * 3 + channel == at + 0 * (width * 3));
    assert(((first + 1) * width + x) * 3 + channel == at + 1 * (width * 3));
    assert(((first + 2) * width + x) * 3 + channel == at + 2 * (width * 3));
    assert(((first + 3) * width + x) * 3 + channel == at + 3 * (width * 3));
}

/// Weights of every output sample that add up to one.
pub open spec fn keep_the_level(weights: Uint8BicubicWeights, target: int) -> bool {
    forall|out: int|
        0 <= out < target ==> (if weights.index_size@[out] > 0 {
            (#[trigger] weights.weights@[out])@[0] as int
        } else {
            0
        }) + (if weights.index_size@[out] > 1 {
            weights.weights@[out]@[1] as int
        } else {
            0
        }) + (if weights.index_size@[out] > 2 {
            weights.weights@[out]@[2] as int
        } else {
            0
        }) + (if weights.index_size@[out] > 3 {
            weights.weights@[out]@[3] as int
        } else {
            0
        }) == pow2(weights.precision as nat)
}

proof fn lemma_level_kept(
    samples: Seq<u8>,
    at: int,
    stride: int,
    weights: Uint8BicubicWeights,
    out: int,
    target: int,
    v: u8,
)
    requires
        keep_the_level(weights, target),
        0 <= out < target,
        1 <= weights.precision,
        weights.index_size@[out] <= 4,
        forall|k: int|
            0 <= k < weights.index_size@[out] ==> samples[#[trigger] (at
                + weights.index_min@[out] * stride + k * stride)] == v,
    ensures
        filtered(samples, at, stride, weights, out) == v,
{
    let base = at + weights.index_min@[out] * stride;
    let n = weights.index_size@[out] as int;
    let w = weights.weights@[out]@;
    let unit = pow2(weights.precision as nat) as int;
    law_every_tap_counts(samples, base, stride, w, n);
    assert(0 * stride == 0 && 1 * stride == stride);
    assert(n > 0 ==> samples[base + 0 * stride] == v);
    assert(n > 1 ==> samples[base + 1 * stride] == v);
    assert(n > 2 ==> samples[base + 2 * stride] == v);
    assert(n > 3 ==> samples[base + 3 * stride] == v);
    let sum = weighted(samples, base, stride, w, n);
    lemma_pow2_pos(weights.precision as nat);
    let part = |k: int| if n > k {
        w[k] as int
    } else {
        0
    };
    let p0 = part(0);
    let p1 = part(1);
    let p2 = part(2);
    let p3 = part(3);
    assert(sum == v * p0 + v * p1 + v * p2 + v * p3) by {
        assert(v * 0 == 0);
    }
    assert(v * p0 + v * p1 + v * p2 + v * p3 == v * (p0 + p1 + p2 + p3)) by (nonlinear_arith);
    assert(p0 + p1 + p2 + p3 == unit);
    assert(sum == v * unit);
    law_sums_become_the_nearest_byte(sum, weights.precision);
    let b = as_byte(sum, weights.precision) as int;
    assert(b == v) by (nonlinear_arith)
        requires
            sum == v * unit,
            unit > 0,
            0 <= v <= 255,
            2 * sum < unit ==> b == 0,
            2 * sum >= 509 * unit ==> b == 255,
            unit <= 2 * sum < 509 * unit ==> (2 * b - 1) * unit <= 2 * sum < (2 * b + 1) * unit,
    ;
}

/// A page of one level stays at that level, whatever its size becomes, where the weights
/// of every output sample add up to one.
pub proof fn law_flat_pages_stay_flat(
    rgb: Seq<u8>,
    width: usize,
    height: usize,
    target_width: usize,
    target_height: usize,
    x_weights: Uint8BicubicWeights,
    y_weights: Uint8BicubicWeights,
    v: u8,
)
    requires
        x_weights.wf(width, target_width),
        y_weights.wf(height, target_height),
        keep_the_level(x_weights, target_width as int),
        keep_the_level(y_weights, target_height as int),
        forall|i: int| 0 <= i < height * width * 3 ==> #[trigger] rgb[i] == v,
    ensures
        ({
            let page = resized_page(
                rgb,
                width as int,
                height as int,
                target_width as int,
                target_height as int,
                x_weights,
                y_weights,
            );
            &&& page.len() == target_height * target_width * 3
            &&& forall|i: int| 0 <= i < page.len() ==> #[trigger] page[i] == v
        }),
{
    let w = width as int;
    let h = height as int;
    let tw = target_width as int;
    let th = target_height as int;
    let rows = across(rgb, w, h, tw, x_weights);
    assert(h * tw * 3 >= 0 && th * tw * 3 >= 0) by (nonlinear_arith)
        requires
            h >= 0,
            tw >= 0,
            th >= 0,
    ;
    assert forall|i: int| 0 <= i < rows.len() implies #[trigger] rows[i] == v by {
        let p = i / 3;
        assert(0 <= p < h * tw && tw > 0 && h > 0) by (nonlinear_arith)
            requires
                p == i / 3,
                0 <= i < h * tw * 3,
                tw >= 0,
                h >= 0,
        ;
        let y = p / tw;
        let x = p % tw;
        lemma_fundamental_div_mod(p, tw);
        lemma_mod_bound(p, tw);
        assert(0 <= y < h) by (nonlinear_arith)
            requires
                p == tw * y + x,
                0 <= p < h * tw,
                0 <= x < tw,
        ;
        let c = i % 3;
        let first = x_weights.index_min@[x] as int;
        let n = x_weights.index_size@[x] as int;
        assert forall|k: int| 0 <= k < n implies rgb[#[trigger] (y * w * 3 + c + first * 3 + k
            * 3)] == v by {
            assert(0 <= y * w * 3 + c + first * 3 + k * 3 < h * w * 3) by (nonlinear_arith)
                requires
                    0 <= y,
                    y + 1 <= h,
                    0 <= first,
                    0 <= k,
                    first + k + 1 <= w,
                    0 <= c < 3,
            ;
        }
        lemma_level_kept(rgb, y * w * 3 + c, 3, x_weights, x, tw, v);
    }
    let page = downwards(rows, tw, th, y_weights);
    assert forall|i: int| 0 <= i < page.len() implies #[trigger] page[i] == v by {
        let p = i / 3;
        assert(0 <= p < th * tw && tw > 0 && th > 0) by (nonlinear_arith)
            requires
                p == i / 3,
                0 <= i < th * tw * 3,
                tw >= 0,
                th >= 0,
        ;
        let y = p / tw;
        let x = p % tw;
        lemma_fundamental_div_mod(p, tw);
        lemma_mod_bound(p, tw);
        assert(0 <= y < th) by (nonlinear_arith)
            requires
                p == tw * y + x,
                0 <= p < th * tw,
                0 <= x < tw,
        ;
        let c = i % 3;
        let first = y_weights.index_min@[y] as int;
        let n = y_weights.index_size@[y] as int;
        let stride = tw * 3;
        assert forall|k: int| 0 <= k < n implies rows[#[trigger] (x * 3 + c + first * stride + k
            * stride)] == v by {
            assert(0 <= x * 3 + c + first * stride + k * stride < h * tw * 3) by (nonlinear_arith)
                requires
                    0 <= x < tw,
                    stride == tw * 3,
                    0 <= first,
                    0 <= k,
                    first + k + 1 <= h,
                    0 <= c < 3,
            ;
        }
        lemma_level_kept(rows, x * 3 + c, stride, y_weights, y, th, v);
    }
}

} // verus!

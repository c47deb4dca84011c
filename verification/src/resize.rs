//! Size that an image takes before it is cut into patches.

use crate::precision;
use crate::precision::{denom, numer};
use crate::rounding;
use crate::rounding::{Binary, DOUBLE};
use vstd::arithmetic::div_mod::*;
use vstd::prelude::*;

verus! {

/// The longer side is more than 200 times the shorter one.
#[derive(Clone, Copy, Debug, PartialEq, Eq, Structural)]
pub struct ResizeError {
    pub longer: usize,
    pub shorter: usize,
}

/// `n` as a double.
pub open spec fn double(n: nat) -> rounding::Bin {
    rounding::nearest(n, 1, 53)
}

/// A double cut to the range of `usize`.
pub open spec fn saturated(n: nat) -> usize {
    if n <= usize::MAX {
        n as usize
    } else {
        usize::MAX
    }
}

/// Rounding of a double to an integer, halves to even.
pub open spec fn rounded_even(x: rounding::Bin) -> usize {
    saturated(rounding::to_even(x))
}

/// `side * factor / other` in doubles, rounded to an integer.
pub open spec fn stretched(side: usize, factor: usize, other: usize) -> usize {
    rounded_even(
        rounding::quotient(
            rounding::product(double(side as nat), double(factor as nat), 53),
            double(other as nat),
            53,
        ),
    )
}

/// Height and width once a side below `factor` is brought up to it and the
/// other side follows.
pub open spec fn enlarged(height: usize, width: usize, factor: usize) -> (usize, usize) {
    let (h, w) = if height < factor {
        (factor, stretched(width, factor, height))
    } else {
        (height, width)
    };
    if w < factor {
        (stretched(h, factor, w), factor)
    } else {
        (h, w)
    }
}

pub open spec fn longer(a: usize, b: usize) -> usize {
    if a >= b {
        a
    } else {
        b
    }
}

pub open spec fn shorter(a: usize, b: usize) -> usize {
    if a >= b {
        b
    } else {
        a
    }
}

/// The quotient of the sides, as a double, is greater than 200.
pub open spec fn too_long(height: usize, width: usize) -> bool {
    rounding::exceeds(
        rounding::quotient(
            double(longer(height, width) as nat),
            double(shorter(height, width) as nat),
            53,
        ),
        200,
    )
}

/// Number of factors nearest to a side.
pub open spec fn snapped(side: usize, factor: usize) -> usize {
    rounded_even(rounding::quotient(double(side as nat), double(factor as nat), 53))
}

/// Number of factors in a side divided by the square root of `area / max_pixels`.
pub open spec fn shrunk(side: usize, factor: usize, area: nat, max_pixels: usize) -> usize {
    if max_pixels == 0 {
        0
    } else {
        let beta = rounding::square_root(
            rounding::quotient(double(area), double(max_pixels as nat), 53),
            53,
        );
        saturated(
            rounding::floor(
                rounding::quotient(
                    rounding::quotient(double(side as nat), beta, 53),
                    double(factor as nat),
                    53,
                ),
            ),
        )
    }
}

/// Number of factors that covers a side multiplied by the square root of
/// `min_pixels / area`.
pub open spec fn grown(side: usize, factor: usize, area: nat, min_pixels: usize) -> usize {
    let beta = rounding::square_root(
        rounding::quotient(double(min_pixels as nat), double(area), 53),
        53,
    );
    saturated(
        rounding::ceiling(
            rounding::quotient(
                rounding::product(double(side as nat), beta, 53),
                double(factor as nat),
                53,
            ),
        ),
    )
}

/// Outcome of fitting a height and a width to multiples of `factor` and to the
/// pixel limits.
pub open spec fn resized(
    height: usize,
    width: usize,
    factor: usize,
    min_pixels: usize,
    max_pixels: usize,
) -> Result<(int, int), ResizeError> {
    let (h, w) = enlarged(height, width, factor);
    if too_long(h, w) {
        Err(ResizeError { longer: longer(h, w), shorter: shorter(h, w) })
    } else {
        let h_bar = snapped(h, factor) * factor;
        let w_bar = snapped(w, factor) * factor;
        let area = (h * w) as nat;
        if h_bar * w_bar > max_pixels {
            let h_fit = shrunk(h, factor, area, max_pixels) * factor;
            let w_fit = shrunk(w, factor, area, max_pixels) * factor;
            Ok(
                (
                    if h_fit > factor {
                        h_fit
                    } else {
                        factor as int
                    },
                    if w_fit > factor {
                        w_fit
                    } else {
                        factor as int
                    },
                ),
            )
        } else if h_bar * w_bar < min_pixels {
            Ok(
                (
                    grown(h, factor, area, min_pixels) * factor,
                    grown(w, factor, area, min_pixels) * factor,
                ),
            )
        } else {
            Ok((h_bar, w_bar))
        }
    }
}

/// Every product on the way to the outcome is a `usize`.
pub open spec fn resize_fits(
    height: usize,
    width: usize,
    factor: usize,
    min_pixels: usize,
    max_pixels: usize,
) -> bool {
    let (h, w) = enlarged(height, width, factor);
    too_long(h, w) || {
        let h_bar = snapped(h, factor) * factor;
        let w_bar = snapped(w, factor) * factor;
        let area = (h * w) as nat;
        &&& h_bar <= usize::MAX
        &&& w_bar <= usize::MAX
        &&& h_bar * w_bar <= usize::MAX
        &&& h_bar * w_bar > max_pixels ==> {
            &&& area <= usize::MAX
            &&& shrunk(h, factor, area, max_pixels) * factor <= usize::MAX
            &&& shrunk(w, factor, area, max_pixels) * factor <= usize::MAX
        }
        &&& h_bar * w_bar <= max_pixels && h_bar * w_bar < min_pixels ==> {
            &&& area <= usize::MAX
            &&& grown(h, factor, area, min_pixels) * factor <= usize::MAX
            &&& grown(w, factor, area, min_pixels) * factor <= usize::MAX
        }
    }
}

fn to_double(n: usize) -> (x: Binary)
    ensures
        x@ == double(n as nat),
        n > 0 ==> x.significand > 0,
        x.significand <= 0x20000000000000,
        -160 <= x.exponent <= 160,
{
    rounding::from_integer(n as u64, DOUBLE)
}

fn saturate(n: u64) -> (s: usize)
    ensures
        s == saturated(n as nat),
{
    if n > usize::MAX as u64 {
        usize::MAX
    } else {
        n as usize
    }
}

proof fn lemma_saturated_capped(n: nat)
    ensures
        saturated(rounding::capped(n) as nat) == saturated(n),
{
}

/// Rounds a double to an integer, halves to even.
fn py_round(x: Binary) -> (n: usize)
    requires
        rounding::moderate(x),
    ensures
        n == rounded_even(x@),
{
    proof {
        lemma_saturated_capped(rounding::to_even(x@));
    }
    saturate(rounding::even_of(x))
}

fn stretch(side: usize, factor: usize, other: usize) -> (n: usize)
    requires
        other > 0,
    ensures
        n == stretched(side, factor, other),
{
    let x = rounding::multiply(to_double(side), to_double(factor), DOUBLE);
    py_round(rounding::divide(x, to_double(other), DOUBLE))
}

proof fn lemma_stretched_positive(side: usize, factor: usize, other: usize)
    requires
        side > 0,
        0 < other <= factor,
    ensures
        stretched(side, factor, other) > 0,
{
    let s = double(side as nat);
    let f = double(factor as nat);
    let o = double(other as nat);
    rounding::lemma_integer_parts(side as nat, 53);
    rounding::lemma_integer_parts(factor as nat, 53);
    rounding::lemma_integer_parts(other as nat, 53);
    rounding::lemma_integer_reaches_one(side as nat, 53);
    rounding::lemma_integers_in_order(other as nat, factor as nat, 53);
    rounding::lemma_product_not_below(s, f, 53);
    rounding::lemma_not_below_transitive(rounding::product(s, f, 53), f, o);
    rounding::lemma_product_positive(s, f, 53);
    rounding::lemma_quotient_reaches_one(rounding::product(s, f, 53), o, 53);
    rounding::lemma_one_rounds_to_positive(
        rounding::quotient(rounding::product(s, f, 53), o, 53),
    );
}

/// The outcome of a computation in `usize`, or nothing where a product is out
/// of range.
pub type Sizes = Option<Result<(usize, usize), ResizeError>>;

pub open spec fn sizes_are(
    sizes: Result<(usize, usize), ResizeError>,
    expected: Result<(int, int), ResizeError>,
) -> bool {
    match (sizes, expected) {
        (Ok(got), Ok(want)) => got.0 == want.0 && got.1 == want.1,
        (Err(got), Err(want)) => got == want,
        _ => false,
    }
}

fn enlarge(height: usize, width: usize, factor: usize) -> (sides: (usize, usize))
    requires
        height > 0,
        width > 0,
        factor > 0,
    ensures
        sides == enlarged(height, width, factor),
        sides.0 > 0,
        sides.1 > 0,
{
    let mut h: usize = height;
    let mut w: usize = width;
    if h < factor {
        proof {
            lemma_stretched_positive(width, factor, height);
        }
        w = stretch(width, factor, height);
        h = factor;
    }
    if w < factor {
        proof {
            lemma_stretched_positive(h, factor, w);
        }
        h = stretch(h, factor, w);
        w = factor;
    }
    (h, w)
}

fn shrink(side: usize, factor: usize, area: usize, max_pixels: usize) -> (n: usize)
    requires
        factor > 0,
        area > 0,
    ensures
        n == shrunk(side, factor, area as nat, max_pixels),
{
    if max_pixels == 0 {
        return 0;
    }
    let beta = rounding::root_of(
        rounding::divide(to_double(area), to_double(max_pixels), DOUBLE),
    );
    let x = rounding::divide(
        rounding::divide(to_double(side), beta, DOUBLE),
        to_double(factor),
        DOUBLE,
    );
    proof {
        lemma_saturated_capped(rounding::floor(x@));
    }
    saturate(rounding::floor_of(x))
}

fn grow(side: usize, factor: usize, area: usize, min_pixels: usize) -> (n: usize)
    requires
        factor > 0,
        area > 0,
        min_pixels > 0,
    ensures
        n == grown(side, factor, area as nat, min_pixels),
{
    let beta = rounding::root_of(
        rounding::divide(to_double(min_pixels), to_double(area), DOUBLE),
    );
    let x = rounding::divide(
        rounding::multiply(to_double(side), beta, DOUBLE),
        to_double(factor),
        DOUBLE,
    );
    proof {
        lemma_saturated_capped(rounding::ceiling(x@));
    }
    saturate(rounding::ceiling_of(x))
}

/// Fits a height and a width to multiples of `factor` and to the pixel limits,
/// where every product on the way is a `usize`.
pub fn checked_smart_resize(
    height: usize,
    width: usize,
    factor: usize,
    min_pixels: usize,
    max_pixels: usize,
) -> (sizes: Sizes)
    requires
        height > 0,
        width > 0,
        factor > 0,
    ensures
        sizes is Some <==> resize_fits(height, width, factor, min_pixels, max_pixels),
        sizes is Some ==> sizes_are(
            sizes->0,
            resized(height, width, factor, min_pixels, max_pixels),
        ),
{
    let (h, w) = enlarge(height, width, factor);
    let (long, short) = if h >= w {
        (h, w)
    } else {
        (w, h)
    };
    let aspect = rounding::divide(to_double(long), to_double(short), DOUBLE);
    if rounding::is_above(aspect, 200) {
        return Some(Err(ResizeError { longer: long, shorter: short }));
    }
    let h_count: usize = py_round(rounding::divide(to_double(h), to_double(factor), DOUBLE));
    let w_count: usize = py_round(rounding::divide(to_double(w), to_double(factor), DOUBLE));
    let (h_bar, w_bar) = match (h_count.checked_mul(factor), w_count.checked_mul(factor)) {
        (Some(a), Some(b)) => (a, b),
        _ => {
            return None;
        },
    };
    let pixels: usize = match h_bar.checked_mul(w_bar) {
        Some(n) => n,
        None => {
            return None;
        },
    };
    assert(h * w > 0) by (nonlinear_arith)
        requires
            h > 0,
            w > 0,
    ;
    if pixels > max_pixels {
        let area: usize = match h.checked_mul(w) {
            Some(n) => n,
            None => {
                return None;
            },
        };
        let h_fit: usize = shrink(h, factor, area, max_pixels);
        let w_fit: usize = shrink(w, factor, area, max_pixels);
        match (h_fit.checked_mul(factor), w_fit.checked_mul(factor)) {
            (Some(a), Some(b)) => {
                let a_fit: usize = if a > factor {
                    a
                } else {
                    factor
                };
                let b_fit: usize = if b > factor {
                    b
                } else {
                    factor
                };
                Some(Ok((a_fit, b_fit)))
            },
            _ => None,
        }
    } else if pixels < min_pixels {
        let area: usize = match h.checked_mul(w) {
            Some(n) => n,
            None => {
                return None;
            },
        };
        let h_fit: usize = grow(h, factor, area, min_pixels);
        let w_fit: usize = grow(w, factor, area, min_pixels);
        match (h_fit.checked_mul(factor), w_fit.checked_mul(factor)) {
            (Some(a), Some(b)) => Some(Ok((a, b))),
            _ => None,
        }
    } else {
        Some(Ok((h_bar, w_bar)))
    }
}

/// Fits a height and a width to multiples of `factor` and to the pixel limits.
/// An image whose longer side is more than 200 times the shorter one is
/// rejected.
pub fn smart_resize(
    height: usize,
    width: usize,
    factor: usize,
    min_pixels: usize,
    max_pixels: usize,
) -> (sizes: Result<(usize, usize), ResizeError>)
    requires
        height > 0,
        width > 0,
        factor > 0,
        resize_fits(height, width, factor, min_pixels, max_pixels),
    ensures
        sizes_are(sizes, resized(height, width, factor, min_pixels, max_pixels)),
{
    checked_smart_resize(height, width, factor, min_pixels, max_pixels).unwrap()
}

/// Both sides of a resized image are multiples of the factor.
pub proof fn law_sides_are_multiples(
    height: usize,
    width: usize,
    factor: usize,
    min_pixels: usize,
    max_pixels: usize,
)
    requires
        factor > 0,
    ensures
        resized(height, width, factor, min_pixels, max_pixels) matches Ok(sides) ==> sides.0 % (
        factor as int) == 0 && sides.1 % (factor as int) == 0,
{
    let (h, w) = enlarged(height, width, factor);
    let area = (h * w) as nat;
    let f = factor as int;
    lemma_mod_multiples_basic(1, f);
    lemma_mod_multiples_basic(snapped(h, factor) as int, f);
    lemma_mod_multiples_basic(snapped(w, factor) as int, f);
    lemma_mod_multiples_basic(shrunk(h, factor, area, max_pixels) as int, f);
    lemma_mod_multiples_basic(shrunk(w, factor, area, max_pixels) as int, f);
    lemma_mod_multiples_basic(grown(h, factor, area, min_pixels) as int, f);
    lemma_mod_multiples_basic(grown(w, factor, area, min_pixels) as int, f);
}

proof fn lemma_snapped_positive(side: usize, factor: usize)
    requires
        factor > 0,
        side >= factor,
    ensures
        snapped(side, factor) > 0,
{
    rounding::lemma_integer_parts(side as nat, 53);
    rounding::lemma_integer_parts(factor as nat, 53);
    rounding::lemma_integers_in_order(factor as nat, side as nat, 53);
    rounding::lemma_quotient_reaches_one(double(side as nat), double(factor as nat), 53);
    rounding::lemma_one_rounds_to_positive(
        rounding::quotient(double(side as nat), double(factor as nat), 53),
    );
}

/// A side of at least one factor, stretched because the other one is shorter, holds
/// a factor.
proof fn lemma_stretched_holds(side: usize, factor: usize, other: usize)
    requires
        0 < other < factor <= side,
        factor < 0x10000000000000,
    ensures
        stretched(side, factor, other) >= factor,
{
    vstd::arithmetic::power2::lemma2_to64_rest();
    vstd::arithmetic::power2::lemma2_to64();
    let s = double(side as nat);
    let f = double(factor as nat);
    let o = double(other as nat);
    rounding::lemma_integer_parts(side as nat, 53);
    rounding::lemma_integer_parts(factor as nat, 53);
    rounding::lemma_integer_parts(other as nat, 53);
    let one = vstd::arithmetic::power2::pow2(0);
    assert(side * one >= factor * (1 * one) && factor * one >= factor * (1 * one) && other * one
        <= other * (1 * one)) by (nonlinear_arith)
        requires
            one == 1,
            factor <= side,
    ;
    rounding::lemma_nearest_reaches(side as nat, 1, 53, factor as nat, 0);
    rounding::lemma_nearest_reaches(factor as nat, 1, 53, factor as nat, 0);
    precision::lemma_nearest_within(other as nat, 1, 53, other as nat, 0);
    let e = precision::lemma_first_bit(factor as nat);
    if e > 52 {
        vstd::arithmetic::power2::lemma_pow2_strictly_increases(52, e);
    }
    assert(e < 52);
    let unit = vstd::arithmetic::power2::pow2(e);
    let square = (factor * factor) as nat;
    let m = square / unit;
    vstd::arithmetic::power2::lemma_pow2_pos(e);
    lemma_fundamental_div_mod(square as int, unit as int);
    vstd::arithmetic::power2::lemma_pow2_adds(e + 1, e + 1);
    vstd::arithmetic::power2::lemma_pow2_adds(e + 2, e);
    let next = vstd::arithmetic::power2::pow2(e + 1);
    assert(square < next * next) by (nonlinear_arith)
        requires
            square == factor * factor,
            factor < next,
    ;
    let most = vstd::arithmetic::power2::pow2(e + 2);
    assert(m < most && m * unit <= square && factor * other <= m * unit) by (nonlinear_arith)
        requires
            square == unit * m + square as int % unit as int,
            0 <= square as int % (unit as int) < unit,
            square < most * unit,
            square == factor * factor,
            unit <= factor,
            other + 1 <= factor,
            unit > 0,
    ;
    if e + 2 < 53 {
        vstd::arithmetic::power2::lemma_pow2_strictly_increases(e + 2, 53);
    }
    precision::lemma_product_reaches(s, f, factor as nat, m, e, 53);
    rounding::lemma_product_positive(s, f, 53);
    let stretched_side = rounding::product(s, f, 53);
    precision::lemma_quotient_reaches(
        stretched_side,
        o,
        m,
        e,
        other as nat,
        factor as nat,
        53,
    );
    precision::lemma_rounds_to_no_less(
        rounding::quotient(stretched_side, o, 53),
        factor as nat,
    );
}

/// An image keeps at least one factor on each side.
pub proof fn law_sides_hold_a_factor(
    height: usize,
    width: usize,
    factor: usize,
    min_pixels: usize,
    max_pixels: usize,
)
    requires
        height > 0,
        width > 0,
        0 < factor < 0x10000000000000,
    ensures
        resized(height, width, factor, min_pixels, max_pixels) matches Ok(sides) ==> sides.0
            >= factor && sides.1 >= factor,
{
    let (h, w) = enlarged(height, width, factor);
    let first = if height < factor {
        lemma_stretched_positive(width, factor, height);
        (factor, stretched(width, factor, height))
    } else {
        (height, width)
    };
    if first.1 < factor {
        lemma_stretched_holds(first.0, factor, first.1);
    }
    let area = (h * w) as nat;
    assert(h * w > 0) by (nonlinear_arith)
        requires
            h > 0,
            w > 0,
    ;
    lemma_snapped_positive(h, factor);
    lemma_snapped_positive(w, factor);
    let hs = snapped(h, factor) as int;
    let ws = snapped(w, factor) as int;
    assert(hs * factor >= factor && ws * factor >= factor) by (nonlinear_arith)
        requires
            hs >= 1,
            ws >= 1,
            factor > 0,
    ;
    if hs * factor * (ws * factor) < min_pixels {
        lemma_grown_positive(h, factor, area, min_pixels);
        lemma_grown_positive(w, factor, area, min_pixels);
        let hg = grown(h, factor, area, min_pixels) as int;
        let wg = grown(w, factor, area, min_pixels) as int;
        assert(hg * factor >= factor && wg * factor >= factor) by (nonlinear_arith)
            requires
                hg >= 1,
                wg >= 1,
                factor > 0,
        ;
    }
}

proof fn lemma_grown_positive(side: usize, factor: usize, area: nat, min_pixels: usize)
    requires
        side > 0,
        factor > 0,
        area > 0,
        min_pixels > 0,
    ensures
        grown(side, factor, area, min_pixels) > 0,
{
    let ratio = rounding::quotient(double(min_pixels as nat), double(area), 53);
    let beta = rounding::square_root(ratio, 53);
    rounding::lemma_integer_parts(min_pixels as nat, 53);
    rounding::lemma_integer_parts(area, 53);
    rounding::lemma_integer_parts(side as nat, 53);
    rounding::lemma_integer_parts(factor as nat, 53);
    rounding::lemma_quotient_positive(double(min_pixels as nat), double(area), 53);
    rounding::lemma_root_positive(ratio, 53);
    rounding::lemma_product_positive(double(side as nat), beta, 53);
    rounding::lemma_quotient_positive(
        rounding::product(double(side as nat), beta, 53),
        double(factor as nat),
        53,
    );
    rounding::lemma_ceiling_positive(
        rounding::quotient(
            rounding::product(double(side as nat), beta, 53),
            double(factor as nat),
            53,
        ),
    );
}

/// Limits on the pixels of an image are kept exactly up to this many pixels,
/// where doubles tell neighboring products apart.
pub open spec fn exact_limit() -> int {
    0x2000000000000
}

proof fn lemma_enlarged_positive(height: usize, width: usize, factor: usize)
    requires
        height > 0,
        width > 0,
        factor > 0,
    ensures
        enlarged(height, width, factor).0 > 0,
        enlarged(height, width, factor).1 > 0,
{
    let (h, w) = if height < factor {
        lemma_stretched_positive(width, factor, height);
        (factor, stretched(width, factor, height))
    } else {
        (height, width)
    };
    if w < factor {
        lemma_stretched_positive(h, factor, w);
    }
}

/// A side that is shrunk, against the quotient that shrinks it.
proof fn lemma_shrunk_side(side: usize, factor: usize, area: nat, max_pixels: usize, k: int)
    requires
        side > 0,
        factor > 0,
        area > 0,
        max_pixels > 0,
        k == 0x20000000000000,
    ensures
        ({
            let b = rounding::square_root(
                rounding::quotient(double(area), double(max_pixels as nat), 53),
                53,
            );
            let y = shrunk(side, factor, area, max_pixels) * factor;
            &&& y >= 0
            &&& k * k * (k - 1) * y * numer(b) <= (k + 1) * (k + 1) * (k + 1) * side * denom(b)
        }),
{
    vstd::arithmetic::power2::lemma2_to64_rest();
    let b = rounding::square_root(
        rounding::quotient(double(area), double(max_pixels as nat), 53),
        53,
    );
    precision::lemma_root_of_ratio_error(area, max_pixels as nat, 53);
    precision::lemma_divided_error(side as nat, b, factor as nat, 53);
    let r = rounding::quotient(
        rounding::quotient(double(side as nat), b, 53),
        double(factor as nat),
        53,
    );
    precision::lemma_parts(b);
    precision::lemma_parts(r);
    let n = numer(r);
    let d = denom(r);
    let m = shrunk(side, factor, area, max_pixels) as int;
    lemma_fundamental_div_mod(n, d);
    let q = n / d;
    assert(m <= q);
    let f = factor as int;
    let s = side as int;
    let y = m * f;
    assert(y * d <= f * n && y >= 0) by (nonlinear_arith)
        requires
            y == m * f,
            0 <= m <= q,
            n == d * q + n % d,
            n % d >= 0,
            d > 0,
            f > 0,
    ;
    let c = k * k * (k - 1) * numer(b);
    assert(c >= 0) by (nonlinear_arith)
        requires
            c == k * k * (k - 1) * numer(b),
            k > 1,
            numer(b) >= 0,
    ;
    precision::lemma_scale(y * d, f * n, c);
    assert(y * d * c == k * k * (k - 1) * y * numer(b) * d) by (nonlinear_arith)
        requires
            c == k * k * (k - 1) * numer(b),
    ;
    assert(f * n * c == k * k * (k - 1) * (f * n) * numer(b)) by (nonlinear_arith)
        requires
            c == k * k * (k - 1) * numer(b),
    ;
    precision::lemma_divide(
        k * k * (k - 1) * y * numer(b),
        (k + 1) * (k + 1) * (k + 1) * s * denom(b),
        d,
    );
}

/// Two bounds multiplied.
proof fn lemma_multiply(a: int, b: int, c: int, d: int)
    requires
        0 <= a <= b,
        0 <= c <= d,
    ensures
        a * c <= b * d,
{
    assert(a * c <= b * d) by (nonlinear_arith)
        requires
            0 <= a <= b,
            0 <= c <= d,
    ;
}

/// A product that exceeds a limit by rounding alone does not exceed it.
proof fn lemma_below_limit(p: int, top: int, k: int)
    requires
        k == 0x20000000000000,
        0 <= top <= exact_limit(),
        ({
            let c1 = k * k * (k - 1);
            let c2 = (k + 1) * (k + 1) * (k + 1);
            let c3 = (k - 2) * (k - 1) * (k - 1);
            let c4 = k * k * (k + 1);
            c1 * c1 * c3 * p <= c2 * c2 * c4 * top
        }),
    ensures
        p <= top,
{
    let c1 = k * k * (k - 1);
    let c2 = (k + 1) * (k + 1) * (k + 1);
    let c3 = (k - 2) * (k - 1) * (k - 1);
    let c4 = k * k * (k + 1);
    let left = 0x1ffffffffffffa0000000000006ffffffffffffc00000000000011ffffffffffffe00000000000000000000000000000000000000000000000000000int;
    let right = 0x20000000000007000000000000a8000000000008c0000000000046000000000001500000000000038000000000000400000000000000000000000000int;
    assert(c1 * c1 * c3 == left) by (nonlinear_arith)
        requires
            k == 0x20000000000000,
            c1 == k * k * (k - 1),
            c3 == (k - 2) * (k - 1) * (k - 1),
            left == 0x1ffffffffffffa0000000000006ffffffffffffc00000000000011ffffffffffffe00000000000000000000000000000000000000000000000000000int,
    ;
    assert(c2 * c2 * c4 == right) by (nonlinear_arith)
        requires
            k == 0x20000000000000,
            c2 == (k + 1) * (k + 1) * (k + 1),
            c4 == k * k * (k + 1),
            right == 0x20000000000007000000000000a8000000000008c0000000000046000000000001500000000000038000000000000400000000000000000000000000int,
    ;
    assert(0x1ffffffffffffa0000000000006ffffffffffffc00000000000011ffffffffffffe00000000000000000000000000000000000000000000000000000int * p <= 0x20000000000007000000000000a8000000000008c0000000000046000000000001500000000000038000000000000400000000000000000000000000int * top);
}

#[verifier::rlimit(40)]
proof fn lemma_shrunk_within(h: usize, w: usize, factor: usize, max_pixels: usize)
    requires
        h > 0,
        w > 0,
        factor > 0,
        0 < max_pixels <= exact_limit(),
    ensures
        ({
            let area = (h * w) as nat;
            (shrunk(h, factor, area, max_pixels) * factor) * (shrunk(w, factor, area, max_pixels)
                * factor) <= max_pixels
        }),
{
    let k: int = 0x20000000000000;
    let a = h * w;
    assert(a > 0) by (nonlinear_arith)
        requires
            a == h * w,
            h > 0,
            w > 0,
    ;
    let area = a as nat;
    let b = rounding::square_root(
        rounding::quotient(double(area), double(max_pixels as nat), 53),
        53,
    );
    vstd::arithmetic::power2::lemma2_to64_rest();
    precision::lemma_root_of_ratio_error(area, max_pixels as nat, 53);
    precision::lemma_parts(b);
    lemma_shrunk_side(h, factor, area, max_pixels, k);
    lemma_shrunk_side(w, factor, area, max_pixels, k);
    let y = shrunk(h, factor, area, max_pixels) * factor;
    let z = shrunk(w, factor, area, max_pixels) * factor;
    let n = numer(b);
    let d = denom(b);
    let c1 = k * k * (k - 1);
    let c2 = (k + 1) * (k + 1) * (k + 1);
    let c3 = (k - 2) * (k - 1) * (k - 1);
    let c4 = k * k * (k + 1);
    let p = y * z;
    let hi = h as int;
    let wi = w as int;
    let top = max_pixels as int;
    assert(c1 * y * n >= 0 && c1 * z * n >= 0 && p >= 0) by (nonlinear_arith)
        requires
            c1 > 0,
            y >= 0,
            z >= 0,
            n > 0,
            p == y * z,
    ;
    lemma_multiply(c1 * y * n, c2 * hi * d, c1 * z * n, c2 * wi * d);
    assert(c1 * y * n * (c1 * z * n) == c1 * c1 * p * (n * n)) by (nonlinear_arith)
        requires
            p == y * z,
    ;
    assert(c2 * hi * d * (c2 * wi * d) == c2 * c2 * a * (d * d)) by (nonlinear_arith)
        requires
            a == hi * wi,
    ;
    precision::lemma_scale(c1 * c1 * p * (n * n), c2 * c2 * a * (d * d), c3);
    precision::lemma_scale(c3 * a * (d * d), c4 * top * (n * n), c2 * c2);
    assert(c1 * c1 * p * (n * n) * c3 == c1 * c1 * c3 * p * (n * n)) by (nonlinear_arith);
    assert(c2 * c2 * a * (d * d) * c3 == c3 * a * (d * d) * (c2 * c2)) by (nonlinear_arith);
    assert(c4 * top * (n * n) * (c2 * c2) == c2 * c2 * c4 * top * (n * n)) by (nonlinear_arith);
    assert(n * n > 0) by (nonlinear_arith)
        requires
            n > 0,
    ;
    precision::lemma_divide(c1 * c1 * c3 * p, c2 * c2 * c4 * top, n * n);
    lemma_below_limit(p, top, k);
}

/// An image with too many pixels is brought down to the limit, unless a side
/// of less than a factor is held at one.
pub proof fn law_large_images_are_brought_to_the_limit(
    height: usize,
    width: usize,
    factor: usize,
    min_pixels: usize,
    max_pixels: usize,
)
    requires
        height > 0,
        width > 0,
        factor > 0,
        max_pixels <= exact_limit(),
    ensures
        ({
            let (h, w) = enlarged(height, width, factor);
            let area = (h * w) as nat;
            resized(height, width, factor, min_pixels, max_pixels) matches Ok(sides) ==> (snapped(
                h,
                factor,
            ) * factor) * (snapped(w, factor) * factor) > max_pixels && shrunk(
                h,
                factor,
                area,
                max_pixels,
            ) > 0 && shrunk(w, factor, area, max_pixels) > 0 ==> sides.0 * sides.1 <= max_pixels
        }),
{
    let (h, w) = enlarged(height, width, factor);
    lemma_enlarged_positive(height, width, factor);
    let area = (h * w) as nat;
    let m = shrunk(h, factor, area, max_pixels) as int;
    let n = shrunk(w, factor, area, max_pixels) as int;
    if m > 0 && n > 0 {
        lemma_shrunk_within(h, w, factor, max_pixels);
        let f = factor as int;
        assert(m * f >= f && n * f >= f) by (nonlinear_arith)
            requires
                m > 0,
                n > 0,
                f > 0,
        ;
    }
}

/// A product that falls short of a limit by rounding alone does not fall short.
proof fn lemma_reaches_limit(p: int, least: int, k: int)
    requires
        k == 0x20000000000000,
        0 <= least <= exact_limit(),
        ({
            let c1 = k * k * (k + 1);
            let c2 = (k - 1) * (k - 1) * (k - 1);
            let c3 = (k - 2) * (k - 1) * (k - 1);
            c2 * c2 * c3 * least <= c1 * c1 * c1 * p
        }),
    ensures
        least <= p,
{
    let c1 = k * k * (k + 1);
    let c2 = (k - 1) * (k - 1) * (k - 1);
    let c3 = (k - 2) * (k - 1) * (k - 1);
    let left = 0x1ffffffffffff60000000000015fffffffffffe40000000000016bfffffffffff3c0000000000045ffffffffffff000000000000021ffffffffffffeint;
    let right = 0x200000000000030000000000001800000000000040000000000000000000000000000000000000000000000000000000000000000000000000000000int;
    assert(c2 * c2 * c3 == left) by (nonlinear_arith)
        requires
            k == 0x20000000000000,
            c2 == (k - 1) * (k - 1) * (k - 1),
            c3 == (k - 2) * (k - 1) * (k - 1),
            left == 0x1ffffffffffff60000000000015fffffffffffe40000000000016bfffffffffff3c0000000000045ffffffffffff000000000000021ffffffffffffeint,
    ;
    assert(c1 * c1 * c1 == right) by (nonlinear_arith)
        requires
            k == 0x20000000000000,
            c1 == k * k * (k + 1),
            right == 0x200000000000030000000000001800000000000040000000000000000000000000000000000000000000000000000000000000000000000000000000int,
    ;
    assert(0x1ffffffffffff60000000000015fffffffffffe40000000000016bfffffffffff3c0000000000045ffffffffffff000000000000021ffffffffffffeint * least <= 0x200000000000030000000000001800000000000040000000000000000000000000000000000000000000000000000000000000000000000000000000int * p);
}

/// A side that grows, against the factor that it grows by.
proof fn lemma_grown_side(side: usize, factor: usize, area: nat, min_pixels: usize, k: int)
    requires
        side > 0,
        factor > 0,
        area > 0,
        min_pixels > 0,
        k == 0x20000000000000,
    ensures
        ({
            let b = rounding::square_root(
                rounding::quotient(double(min_pixels as nat), double(area), 53),
                53,
            );
            let m = grown(side, factor, area, min_pixels);
            let y = m * factor;
            &&& m > 0
            &&& m == usize::MAX || (k - 1) * (k - 1) * (k - 1) * side * numer(b) <= k * k * (k + 1)
                * y * denom(b)
        }),
{
    vstd::arithmetic::power2::lemma2_to64_rest();
    let b = rounding::square_root(
        rounding::quotient(double(min_pixels as nat), double(area), 53),
        53,
    );
    precision::lemma_root_of_ratio_error(min_pixels as nat, area, 53);
    precision::lemma_multiplied_error(side as nat, b, factor as nat, 53);
    let r = rounding::quotient(
        rounding::product(double(side as nat), b, 53),
        double(factor as nat),
        53,
    );
    precision::lemma_parts(b);
    precision::lemma_parts(r);
    rounding::lemma_ceiling_positive(r);
    let m = grown(side, factor, area, min_pixels) as int;
    if m < usize::MAX {
        let n = numer(r);
        let d = denom(r);
        lemma_fundamental_div_mod(n, d);
        let q = n / d;
        assert(m == if n % d == 0 {
            q
        } else {
            q + 1
        });
        let f = factor as int;
        let s = side as int;
        let y = m * f;
        assert(n <= m * d) by (nonlinear_arith)
            requires
                n == d * q + n % d,
                0 <= n % d < d,
                m == q + 1 || (m == q && n % d == 0),
        ;
        assert(f * n <= y * d) by (nonlinear_arith)
            requires
                n <= m * d,
                y == m * f,
                f > 0,
        ;
        let c = k * k * (k + 1) * denom(b);
        assert(c >= 0) by (nonlinear_arith)
            requires
                c == k * k * (k + 1) * denom(b),
                k > 1,
                denom(b) > 0,
        ;
        precision::lemma_scale(f * n, y * d, c);
        assert(y * d * c == k * k * (k + 1) * y * denom(b) * d) by (nonlinear_arith)
            requires
                c == k * k * (k + 1) * denom(b),
        ;
        assert(f * n * c == k * k * (k + 1) * (f * n) * denom(b)) by (nonlinear_arith)
            requires
                c == k * k * (k + 1) * denom(b),
        ;
        precision::lemma_divide(
            (k - 1) * (k - 1) * (k - 1) * s * numer(b),
            k * k * (k + 1) * y * denom(b),
            d,
        );
    }
}

#[verifier::rlimit(40)]
proof fn lemma_grown_within(h: usize, w: usize, factor: usize, min_pixels: usize)
    requires
        h > 0,
        w > 0,
        factor > 0,
        0 < min_pixels <= exact_limit(),
    ensures
        ({
            let area = (h * w) as nat;
            (grown(h, factor, area, min_pixels) * factor) * (grown(w, factor, area, min_pixels)
                * factor) >= min_pixels
        }),
{
    let k: int = 0x20000000000000;
    let a = h * w;
    assert(a > 0) by (nonlinear_arith)
        requires
            a == h * w,
            h > 0,
            w > 0,
    ;
    let area = a as nat;
    let b = rounding::square_root(
        rounding::quotient(double(min_pixels as nat), double(area), 53),
        53,
    );
    vstd::arithmetic::power2::lemma2_to64_rest();
    precision::lemma_root_of_ratio_error(min_pixels as nat, area, 53);
    precision::lemma_parts(b);
    lemma_grown_side(h, factor, area, min_pixels, k);
    lemma_grown_side(w, factor, area, min_pixels, k);
    let i = grown(h, factor, area, min_pixels) as int;
    let j = grown(w, factor, area, min_pixels) as int;
    let f = factor as int;
    let y = i * f;
    let z = j * f;
    let least = min_pixels as int;
    let p = y * z;
    if i == usize::MAX || j == usize::MAX {
        assert(i >= least || j >= least);
        assert(y >= i && z >= j && p >= least) by (nonlinear_arith)
            requires
                y == i * f,
                z == j * f,
                p == y * z,
                f > 0,
                i > 0,
                j > 0,
                i >= least || j >= least,
        ;
    } else {
        let n = numer(b);
        let d = denom(b);
        let c1 = k * k * (k + 1);
        let c2 = (k - 1) * (k - 1) * (k - 1);
        let c3 = (k - 2) * (k - 1) * (k - 1);
        let hi = h as int;
        let wi = w as int;
        assert(c2 * hi * n >= 0 && c2 * wi * n >= 0) by (nonlinear_arith)
            requires
                c2 > 0,
                hi > 0,
                wi > 0,
                n > 0,
        ;
        lemma_multiply(c2 * hi * n, c1 * y * d, c2 * wi * n, c1 * z * d);
        assert(c1 * y * d * (c1 * z * d) == c1 * c1 * p * (d * d)) by (nonlinear_arith)
            requires
                p == y * z,
        ;
        assert(c2 * hi * n * (c2 * wi * n) == c2 * c2 * a * (n * n)) by (nonlinear_arith)
            requires
                a == hi * wi,
        ;
        precision::lemma_scale(c2 * c2 * a * (n * n), c1 * c1 * p * (d * d), c1);
        precision::lemma_scale(c3 * least * (d * d), c1 * a * (n * n), c2 * c2);
        assert(c3 * least * (d * d) * (c2 * c2) == c2 * c2 * c3 * least * (d * d))
            by (nonlinear_arith);
        assert(c1 * a * (n * n) * (c2 * c2) == c2 * c2 * a * (n * n) * c1) by (nonlinear_arith);
        assert(c1 * c1 * p * (d * d) * c1 == c1 * c1 * c1 * p * (d * d)) by (nonlinear_arith);
        assert(d * d > 0) by (nonlinear_arith)
            requires
                d > 0,
        ;
        precision::lemma_divide(c2 * c2 * c3 * least, c1 * c1 * c1 * p, d * d);
        lemma_reaches_limit(p, least, k);
    }
}

/// An image with too few pixels is brought up to the limit, and one within both
/// limits stays within them.
pub proof fn law_small_images_are_brought_to_the_limit(
    height: usize,
    width: usize,
    factor: usize,
    min_pixels: usize,
    max_pixels: usize,
)
    requires
        height > 0,
        width > 0,
        factor > 0,
        min_pixels <= exact_limit(),
    ensures
        ({
            let (h, w) = enlarged(height, width, factor);
            resized(height, width, factor, min_pixels, max_pixels) matches Ok(sides) ==> (snapped(
                h,
                factor,
            ) * factor) * (snapped(w, factor) * factor) <= max_pixels ==> {
                &&& sides.0 * sides.1 >= min_pixels
                &&& sides.0 * sides.1 <= max_pixels || (snapped(h, factor) * factor) * (snapped(
                    w,
                    factor,
                ) * factor) < min_pixels
            }
        }),
{
    let (h, w) = enlarged(height, width, factor);
    lemma_enlarged_positive(height, width, factor);
    if min_pixels > 0 {
        lemma_grown_within(h, w, factor, min_pixels);
    }
}

/// The shorter side is not much less than a part in two hundred of the longer.
#[verifier::rlimit(40)]
proof fn lemma_aspect(h: usize, w: usize, k: int)
    requires
        h > 0,
        w > 0,
        !too_long(h, w),
        k == 0x20000000000000,
    ensures
        (k - 1) * (k - 1) * w <= 200 * k * (k + 1) * h,
        (k - 1) * (k - 1) * h <= 200 * k * (k + 1) * w,
{
    let long = longer(h, w) as int;
    let short = shorter(h, w) as int;
    vstd::arithmetic::power2::lemma2_to64_rest();
    precision::lemma_ratio_error(long as nat, short as nat, 53);
    let t = rounding::quotient(double(long as nat), double(short as nat), 53);
    precision::lemma_parts(t);
    let n = numer(t);
    let d = denom(t);
    assert(n <= 200 * d);
    assert(k * (k + 1) * short >= 0) by (nonlinear_arith)
        requires
            k > 1,
            short > 0,
    ;
    precision::lemma_scale(n, 200 * d, k * (k + 1) * short);
    assert(n * (k * (k + 1) * short) == k * (k + 1) * short * n) by (nonlinear_arith);
    assert(200 * d * (k * (k + 1) * short) == 200 * k * (k + 1) * short * d) by (nonlinear_arith);
    precision::lemma_divide((k - 1) * (k - 1) * long, 200 * k * (k + 1) * short, d);
    assert((k - 1) * (k - 1) * short <= (k - 1) * (k - 1) * long && (k - 1) * (k - 1) * long <= 200
        * k * (k + 1) * short && 200 * k * (k + 1) * short <= 200 * k * (k + 1) * long)
        by (nonlinear_arith)
        requires
            0 < short <= long,
            k > 1,
            (k - 1) * (k - 1) * long <= 200 * k * (k + 1) * short,
    ;
}

/// A bound on a side, squared, against the square that it is shrunk by.
#[verifier::rlimit(40)]
proof fn lemma_squares(
    c5: int,
    c6: int,
    c7: int,
    c8: int,
    hi: int,
    wi: int,
    f: int,
    n: int,
    d: int,
    nr: int,
    dr: int,
    top: int,
)
    requires
        c5 > 0,
        c6 > 0,
        c7 > 0,
        hi > 0,
        d > 0,
        dr > 0,
        top >= 0,
        c5 * hi * d * dr <= c6 * (f * nr) * n,
        c7 * top * (n * n) <= c8 * (hi * wi) * (d * d),
    ensures
        c5 * c5 * c7 * (hi * top) * (dr * dr) <= c6 * c6 * c8 * (f * f) * wi * (nr * nr),
{
    let x = c5 * hi * d * dr;
    let y = c6 * (f * nr) * n;
    let v = hi * (d * d);
    let e = c6 * c6 * (f * f) * (nr * nr);
    assert(x >= 0) by (nonlinear_arith)
        requires
            x == c5 * hi * d * dr,
            c5 > 0,
            hi > 0,
            d > 0,
            dr > 0,
    ;
    lemma_multiply(x, y, x, y);
    assert(x * x == c5 * c5 * (dr * dr) * hi * v) by (nonlinear_arith)
        requires
            x == c5 * hi * d * dr,
            v == hi * (d * d),
    ;
    assert(y * y == e * (n * n)) by (nonlinear_arith)
        requires
            y == c6 * (f * nr) * n,
            e == c6 * c6 * (f * f) * (nr * nr),
    ;
    assert(e >= 0) by {
        let g = c6 * f * nr;
        assert(e == g * g) by (nonlinear_arith)
            requires
                e == c6 * c6 * (f * f) * (nr * nr),
                g == c6 * f * nr,
        ;
        assert(g * g >= 0) by (nonlinear_arith);
    }
    assert(c7 * top >= 0) by (nonlinear_arith)
        requires
            c7 > 0,
            top >= 0,
    ;
    precision::lemma_scale(x * x, y * y, c7 * top);
    precision::lemma_scale(c7 * top * (n * n), c8 * (hi * wi) * (d * d), e);
    assert(v > 0) by (nonlinear_arith)
        requires
            v == hi * (d * d),
            hi > 0,
            d > 0,
    ;
    lemma_reorder(c5 * c5, dr * dr, hi, v, c7, top);
    assert(e * (n * n) * (c7 * top) == c7 * top * (n * n) * e) by (nonlinear_arith);
    let cc = c6 * c6;
    let ff = f * f;
    let rr = nr * nr;
    let dd = d * d;
    let u = cc * ff * rr;
    assert(c8 * (hi * wi) * dd * u == c8 * wi * u * (hi * dd)) by (nonlinear_arith);
    assert(c8 * wi * u == cc * c8 * ff * wi * rr) by (nonlinear_arith)
        requires
            u == cc * ff * rr,
    ;
    precision::lemma_divide(
        c5 * c5 * c7 * (hi * top) * (dr * dr),
        c6 * c6 * c8 * (f * f) * wi * (nr * nr),
        v,
    );
}

#[verifier::rlimit(40)]
proof fn lemma_reorder(a: int, b: int, c: int, v: int, e: int, g: int)
    ensures
        a * b * c * v * (e * g) == a * e * (c * g) * b * v,
{
    assert(a * b * c * v * (e * g) == a * e * (c * g) * b * v) by (nonlinear_arith);
}

/// A side that the limit leaves room for keeps a factor.
proof fn lemma_side_is_not_held(h: usize, w: usize, factor: usize, max_pixels: usize)
    requires
        h > 0,
        w > 0,
        factor > 0,
        max_pixels >= 201 * (factor * factor),
        0x1fffffffffffff * 0x1fffffffffffff * w <= 200 * 0x20000000000000 * 0x20000000000001 * h,
    ensures
        shrunk(h, factor, (h * w) as nat, max_pixels) > 0,
{
    let k: int = 0x20000000000000;
    let a = h * w;
    let f = factor as int;
    assert(a > 0 && f * f > 0) by (nonlinear_arith)
        requires
            a == h * w,
            h > 0,
            w > 0,
            f > 0,
    ;
    let area = a as nat;
    let b = rounding::square_root(
        rounding::quotient(double(area), double(max_pixels as nat), 53),
        53,
    );
    vstd::arithmetic::power2::lemma2_to64_rest();
    precision::lemma_root_of_ratio_error(area, max_pixels as nat, 53);
    precision::lemma_divided_error(h as nat, b, factor as nat, 53);
    let r = rounding::quotient(
        rounding::quotient(double(h as nat), b, 53),
        double(factor as nat),
        53,
    );
    precision::lemma_parts(b);
    precision::lemma_parts(r);
    let n = numer(b);
    let d = denom(b);
    let nr = numer(r);
    let dr = denom(r);
    let hi = h as int;
    let wi = w as int;
    let top = max_pixels as int;
    let c5 = (k - 1) * (k - 1) * (k - 1);
    let c6 = k * k * (k + 1);
    let c7 = k * k * (k - 1);
    let c8 = (k + 2) * (k + 1) * (k + 1);
    lemma_squares(c5, c6, c7, c8, hi, wi, f, n, d, nr, dr, top);
    lemma_held_numbers(f * f, hi, wi, top, nr, dr, k);
    lemma_fundamental_div_mod(nr, dr);
    let q = nr / dr;
    assert(q >= 1) by (nonlinear_arith)
        requires
            nr == dr * q + nr % dr,
            nr % dr < dr,
            nr >= dr,
            dr > 0,
    ;
}

proof fn lemma_greater_square(dd: int, nn: int)
    requires
        201 * 0x7fffffffffffdc0000000000047fffffffffffac000000000003efffffffffffe0800000000000a7fffffffffffdc00000000000047ffffffffffffc00000000000000000000000000int * dd <= 0x64000000000015e00000000001f40000000000177000000000009c4000000000022600000000000320000000000000000000000000000000000000000000000000000000000000000000int * nn,
        nn >= 0,
    ensures
        dd <= nn,
{
}

#[verifier::rlimit(40)]
proof fn lemma_held_numbers(ff: int, hi: int, wi: int, top: int, nr: int, dr: int, k: int)
    requires
        k == 0x20000000000000,
        ff > 0,
        hi > 0,
        wi > 0,
        nr >= 0,
        dr > 0,
        top >= 201 * ff,
        (k - 1) * (k - 1) * wi <= 200 * k * (k + 1) * hi,
        ({
            let c5 = (k - 1) * (k - 1) * (k - 1);
            let c6 = k * k * (k + 1);
            let c7 = k * k * (k - 1);
            let c8 = (k + 2) * (k + 1) * (k + 1);
            c5 * c5 * c7 * (hi * top) * (dr * dr) <= c6 * c6 * c8 * ff * wi * (nr * nr)
        }),
    ensures
        nr >= dr,
{
    let c5 = (k - 1) * (k - 1) * (k - 1);
    let c6 = k * k * (k + 1);
    let c7 = k * k * (k - 1);
    let c8 = (k + 2) * (k + 1) * (k + 1);
    let kk = (k - 1) * (k - 1);
    let s = 200 * k * (k + 1);
    let g = c6 * c6 * c8 * ff * (nr * nr);
    let l = c5 * c5 * c7;
    assert(g >= 0) by (nonlinear_arith)
        requires
            g == c6 * c6 * c8 * ff * (nr * nr),
            c6 > 0,
            c8 > 0,
            ff > 0,
    ;
    precision::lemma_scale(l * (hi * top) * (dr * dr), c6 * c6 * c8 * ff * wi * (nr * nr), kk);
    precision::lemma_scale(kk * wi, s * hi, g);
    assert(l * (hi * top) * (dr * dr) * kk == l * kk * top * (dr * dr) * hi) by (nonlinear_arith);
    assert(c6 * c6 * c8 * ff * wi * (nr * nr) * kk == kk * wi * g) by (nonlinear_arith)
        requires
            g == c6 * c6 * c8 * ff * (nr * nr),
    ;
    assert(s * hi * g == s * g * hi) by (nonlinear_arith);
    precision::lemma_divide(l * kk * top * (dr * dr), s * g, hi);
    let left = 0x7fffffffffffdc0000000000047fffffffffffac000000000003efffffffffffe0800000000000a7fffffffffffdc00000000000047ffffffffffffc00000000000000000000000000int;
    let right = 0x64000000000015e00000000001f40000000000177000000000009c4000000000022600000000000320000000000000000000000000000000000000000000000000000000000000000000int;
    assert(l * kk == left) by (nonlinear_arith)
        requires
            k == 0x20000000000000,
            l == c5 * c5 * c7,
            c5 == (k - 1) * (k - 1) * (k - 1),
            c7 == k * k * (k - 1),
            kk == (k - 1) * (k - 1),
            left == 0x7fffffffffffdc0000000000047fffffffffffac000000000003efffffffffffe0800000000000a7fffffffffffdc00000000000047ffffffffffffc00000000000000000000000000int,
    ;
    let u = l * kk * (dr * dr);
    assert(u >= 0) by (nonlinear_arith)
        requires
            u == l * kk * (dr * dr),
            l * kk == 0x7fffffffffffdc0000000000047fffffffffffac000000000003efffffffffffe0800000000000a7fffffffffffdc00000000000047ffffffffffffc00000000000000000000000000int,
    ;
    precision::lemma_scale(201 * ff, top, u);
    assert(top * u == l * kk * top * (dr * dr)) by (nonlinear_arith)
        requires
            u == l * kk * (dr * dr),
    ;
    assert(201 * ff * u == 201 * (l * kk) * (dr * dr) * ff) by (nonlinear_arith)
        requires
            u == l * kk * (dr * dr),
    ;
    assert(s * g == s * (c6 * c6 * c8) * (nr * nr) * ff) by (nonlinear_arith)
        requires
            g == c6 * c6 * c8 * ff * (nr * nr),
    ;
    precision::lemma_divide(201 * (l * kk) * (dr * dr), s * (c6 * c6 * c8) * (nr * nr), ff);
    assert(s * (c6 * c6 * c8) == right) by (nonlinear_arith)
        requires
            k == 0x20000000000000,
            s == 200 * k * (k + 1),
            c6 == k * k * (k + 1),
            c8 == (k + 2) * (k + 1) * (k + 1),
            right == 0x64000000000015e00000000001f40000000000177000000000009c4000000000022600000000000320000000000000000000000000000000000000000000000000000000000000000000int,
    ;
    let dd = dr * dr;
    let nn = nr * nr;
    assert(dd > 0 && nn >= 0) by (nonlinear_arith)
        requires
            dd == dr * dr,
            nn == nr * nr,
            dr > 0,
    ;
    lemma_greater_square(dd, nn);
    assert(nr >= dr) by (nonlinear_arith)
        requires
            dr * dr <= nr * nr,
            nr >= 0,
            dr > 0,
    ;
}

/// Where the limit has room for 201 squares of the factor, no side is held, and
/// no image comes out with more pixels than the limit once it had too many.
pub proof fn law_wide_limits_are_kept(
    height: usize,
    width: usize,
    factor: usize,
    min_pixels: usize,
    max_pixels: usize,
)
    requires
        height > 0,
        width > 0,
        factor > 0,
        201 * (factor * factor) <= max_pixels <= exact_limit(),
    ensures
        ({
            let (h, w) = enlarged(height, width, factor);
            resized(height, width, factor, min_pixels, max_pixels) matches Ok(sides) ==> (snapped(
                h,
                factor,
            ) * factor) * (snapped(w, factor) * factor) > max_pixels ==> sides.0 * sides.1
                <= max_pixels
        }),
{
    let (h, w) = enlarged(height, width, factor);
    lemma_enlarged_positive(height, width, factor);
    if !too_long(h, w) {
        lemma_aspect(h, w, 0x20000000000000);
        lemma_side_is_not_held(h, w, factor, max_pixels);
        lemma_side_is_not_held(w, h, factor, max_pixels);
        assert(h * w == w * h) by (nonlinear_arith);
        law_large_images_are_brought_to_the_limit(height, width, factor, min_pixels, max_pixels);
    }
}

/// A multiple of the factor is as many factors as it is a multiple of.
proof fn lemma_snapped_multiple(k: nat, factor: usize, side: usize)
    requires
        factor > 0,
        k > 0,
        side == k * factor,
        side < 0x20000000000000,
    ensures
        snapped(side, factor) == k,
{
    vstd::arithmetic::power2::lemma2_to64_rest();
    let f = factor as int;
    let c = k as int;
    assert(c <= side && f <= side) by (nonlinear_arith)
        requires
            side == c * f,
            c > 0,
            f > 0,
    ;
    let t = rounding::quotient(double(side as nat), double(factor as nat), 53);
    precision::lemma_exact_quotient(side as nat, factor as nat, k, 53);
    precision::lemma_parts(t);
    let d = denom(t);
    lemma_fundamental_div_mod_converse(numer(t), d, c, 0);
    assert(rounding::to_even(t) == k);
}

proof fn lemma_some_side_is_kept(
    height: usize,
    width: usize,
    factor: usize,
    min_pixels: usize,
    max_pixels: usize,
)
    requires
        height > 0,
        width > 0,
        factor > 0,
    ensures
        resized(height, width, factor, min_pixels, max_pixels) matches Ok(sides) ==> sides.0 > 0
            || sides.1 > 0,
{
    let (h, w) = enlarged(height, width, factor);
    lemma_enlarged_positive(height, width, factor);
    assert(h * w > 0) by (nonlinear_arith)
        requires
            h > 0,
            w > 0,
    ;
    let side = if h >= factor {
        h
    } else {
        w
    };
    lemma_snapped_positive(side, factor);
    let s = snapped(side, factor) as int;
    assert(s * factor > 0) by (nonlinear_arith)
        requires
            s > 0,
            factor > 0,
    ;
    if min_pixels > 0 {
        lemma_grown_positive(side, factor, (h * w) as nat, min_pixels);
        let g = grown(side, factor, (h * w) as nat, min_pixels) as int;
        assert(g * factor > 0) by (nonlinear_arith)
            requires
                g > 0,
                factor > 0,
        ;
    }
    assert(snapped(h, factor) * factor >= 0 && snapped(w, factor) * factor >= 0)
        by (nonlinear_arith);
    let area = (snapped(h, factor) * factor) * (snapped(w, factor) * factor);
    assert(area >= 0) by (nonlinear_arith)
        requires
            area == (snapped(h, factor) * factor) * (snapped(w, factor) * factor),
            snapped(h, factor) * factor >= 0,
            snapped(w, factor) * factor >= 0,
    ;
}

/// A size that resizing gave comes back unchanged where it lies within the pixel
/// limits and is not too long.
pub proof fn law_resized_sizes_stay(
    height: usize,
    width: usize,
    factor: usize,
    min_pixels: usize,
    max_pixels: usize,
    h: usize,
    w: usize,
)
    requires
        height > 0,
        width > 0,
        factor > 0,
        resized(height, width, factor, min_pixels, max_pixels) == Ok::<(int, int), ResizeError>(
            (h as int, w as int),
        ),
        min_pixels <= h * w <= max_pixels,
        longer(h, w) <= 200 * shorter(h, w),
    ensures
        resized(h, w, factor, min_pixels, max_pixels) == Ok::<(int, int), ResizeError>(
            (h as int, w as int),
        ),
        resize_fits(h, w, factor, min_pixels, max_pixels),
{
    law_sides_are_multiples(height, width, factor, min_pixels, max_pixels);
    lemma_some_side_is_kept(height, width, factor, min_pixels, max_pixels);
    assert(longer(h, w) * shorter(h, w) == h * w) by (nonlinear_arith);
    assert(longer(h, w) < 0x20000000000000) by (nonlinear_arith)
        requires
            longer(h, w) * shorter(h, w) <= 0xffff_ffff_ffff_ffff,
            longer(h, w) <= 200 * shorter(h, w),
    ;
    let f = factor as int;
    lemma_fundamental_div_mod(h as int, f);
    lemma_fundamental_div_mod(w as int, f);
    let i = h as int / f;
    let j = w as int / f;
    assert(i > 0 && j > 0 && h == i * f && w == j * f && h >= f && w >= f) by (nonlinear_arith)
        requires
            h == f * i,
            w == f * j,
            h > 0,
            w > 0,
            f > 0,
    ;
    lemma_snapped_multiple(i as nat, factor, h);
    lemma_snapped_multiple(j as nat, factor, w);
    vstd::arithmetic::power2::lemma2_to64_rest();
    precision::lemma_exact_quotient(longer(h, w) as nat, shorter(h, w) as nat, 200, 53);
    assert(!too_long(h, w));
}

/// A value near a fraction rounds to the integer that is nearest to the fraction.
proof fn lemma_rounds_to_nearest(t: rounding::Bin, a: int, c: int, n: int)
    requires
        a > 0,
        c > 0,
        n >= 0,
        2 * (a + c) < 0x1000000000000,
        -c < 2 * (n * c - a) < c,
        0xffffffffffff * (a * denom(t)) <= 0x1000000000000 * (c * numer(t)),
        0x1000000000000 * (c * numer(t)) <= 0x1000000000001 * (a * denom(t)),
    ensures
        rounding::to_even(t) == n,
{
    precision::lemma_parts(t);
    let num = numer(t);
    let d = denom(t);
    let m = rounding::to_even(t) as int;
    rounding::law_halves_go_to_even(num as nat, d as nat);
    assert((2 * m - 1) * d <= 2 * num <= (2 * m + 1) * d);
    let k: int = 0x1000000000000;
    if m > n {
        let b = (2 * n + 1) * c;
        assert(b == 2 * (n * c) + c) by (nonlinear_arith)
            requires
                b == (2 * n + 1) * c,
        ;
        assert(b * d <= 2 * (c * num)) by (nonlinear_arith)
            requires
                b == (2 * n + 1) * c,
                (2 * m - 1) * d <= 2 * num,
                m >= n + 1,
                c > 0,
                d > 0,
        ;
        assert(2 * a <= b - 1);
        assert(k * (b * d) <= (k + 1) * ((b - 1) * d)) by (nonlinear_arith)
            requires
                b * d <= 2 * (c * num),
                k * (c * num) <= (k + 1) * (a * d),
                2 * a <= b - 1,
                d > 0,
                k > 0,
        ;
        assert(k * b <= (k + 1) * (b - 1)) by (nonlinear_arith)
            requires
                k * (b * d) <= (k + 1) * ((b - 1) * d),
                d > 0,
        ;
        assert(b >= k + 1);
    }
    if m < n {
        let b = (2 * n - 1) * c;
        assert(b == 2 * (n * c) - c) by (nonlinear_arith)
            requires
                b == (2 * n - 1) * c,
        ;
        assert(2 * (c * num) <= b * d) by (nonlinear_arith)
            requires
                b == (2 * n - 1) * c,
                2 * num <= (2 * m + 1) * d,
                m <= n - 1,
                c > 0,
                d > 0,
        ;
        assert(b + 1 <= 2 * a);
        assert((k - 1) * ((b + 1) * d) <= k * (b * d)) by (nonlinear_arith)
            requires
                2 * (c * num) <= b * d,
                (k - 1) * (a * d) <= k * (c * num),
                b + 1 <= 2 * a,
                d > 0,
                k > 1,
        ;
        assert((k - 1) * (b + 1) <= k * b) by (nonlinear_arith)
            requires
                (k - 1) * ((b + 1) * d) <= k * (b * d),
                d > 0,
        ;
        assert(b >= k - 1);
    }
}

/// A quotient of integers, as doubles, is exact but for one part in `2^48`.
proof fn lemma_double_ratio(a: nat, c: nat)
    requires
        a > 0,
        c > 0,
    ensures
        ({
            let t = rounding::quotient(double(a), double(c), 53);
            &&& denom(t) > 0
            &&& numer(t) > 0
            &&& 0xffffffffffff * (a * denom(t)) <= 0x1000000000000 * (c * numer(t))
            &&& 0x1000000000000 * (c * numer(t)) <= 0x1000000000001 * (a * denom(t))
        }),
{
    vstd::arithmetic::power2::lemma2_to64_rest();
    let k: int = 0x20000000000000;
    let t = rounding::quotient(double(a), double(c), 53);
    precision::lemma_ratio_error(a, c, 53);
    precision::lemma_parts(t);
    let x = a * denom(t);
    let y = c * numer(t);
    assert(x >= 0 && y >= 0) by (nonlinear_arith)
        requires
            x == a * denom(t),
            y == c * numer(t),
            denom(t) > 0,
            numer(t) > 0,
            a >= 0,
            c >= 0,
    ;
    let low: int = 0x1fffffffffffffint * 0x1fffffffffffffint;
    let mid: int = 0x20000000000000int * 0x20000000000001int;
    let most: int = 0x20000000000001int * 0x20000000000001int;
    let less: int = 0x20000000000000int * 0x1fffffffffffffint;
    assert((k - 1) * (k - 1) * a * denom(t) == low * x) by (nonlinear_arith)
        requires
            x == a * denom(t),
            low == (k - 1) * (k - 1),
    ;
    assert(k * (k + 1) * c * numer(t) == mid * y) by (nonlinear_arith)
        requires
            y == c * numer(t),
            mid == k * (k + 1),
    ;
    assert(k * (k - 1) * c * numer(t) == less * y) by (nonlinear_arith)
        requires
            y == c * numer(t),
            less == k * (k - 1),
    ;
    assert((k + 1) * (k + 1) * a * denom(t) == most * x) by (nonlinear_arith)
        requires
            x == a * denom(t),
            most == (k + 1) * (k + 1),
    ;
    precision::lemma_weaker(low, mid, 0xffffffffffff, 0x1000000000000, x, y);
    precision::lemma_weaker(less, most, 0x1000000000000, 0x1000000000001, y, x);
}

proof fn lemma_snapped_nearest(side: usize, factor: usize, n: int)
    requires
        side > 0,
        factor > 0,
        n >= 0,
        2 * (side + factor) < 0x1000000000000,
        -factor < 2 * (n * factor - side) < factor,
    ensures
        snapped(side, factor) == n,
{
    lemma_double_ratio(side as nat, factor as nat);
    lemma_rounds_to_nearest(
        rounding::quotient(double(side as nat), double(factor as nat), 53),
        side as int,
        factor as int,
        n,
    );
    assert(n <= side) by (nonlinear_arith)
        requires
            2 * (n * factor - side) < factor,
            factor >= 1,
            side >= 1,
            n >= 0,
    ;
}

/// An image within the limits whose sides are at least a factor goes to the multiples of
/// the factor that are nearest to its sides.
pub proof fn law_sides_go_to_the_nearest_multiples(
    height: usize,
    width: usize,
    factor: usize,
    min_pixels: usize,
    max_pixels: usize,
    n: int,
    m: int,
)
    requires
        0 < factor <= height < 0x400000000000,
        factor <= width < 0x400000000000,
        longer(height, width) <= 200 * shorter(height, width),
        n >= 0,
        m >= 0,
        -factor < 2 * (n * factor - height) < factor,
        -factor < 2 * (m * factor - width) < factor,
        min_pixels <= (n * factor) * (m * factor) <= max_pixels,
    ensures
        resized(height, width, factor, min_pixels, max_pixels) == Ok::<(int, int), ResizeError>(
            (n * factor, m * factor),
        ),
        resize_fits(height, width, factor, min_pixels, max_pixels),
{
    lemma_snapped_nearest(height, factor, n);
    lemma_snapped_nearest(width, factor, m);
    vstd::arithmetic::power2::lemma2_to64_rest();
    precision::lemma_exact_quotient(
        longer(height, width) as nat,
        shorter(height, width) as nat,
        200,
        53,
    );
    assert(!too_long(height, width));
    let p = n * factor;
    let q = m * factor;
    assert(p > 0 && q > 0) by (nonlinear_arith)
        requires
            p == n * factor,
            q == m * factor,
            n >= 0,
            m >= 0,
            factor > 0,
            factor <= height,
            factor <= width,
            -factor < 2 * (p - height),
            -factor < 2 * (q - width),
    ;
    assert(p <= p * q && q <= p * q) by (nonlinear_arith)
        requires
            p >= 1,
            q >= 1,
    ;
}

/// An image whose sides are at least a factor is refused exactly where one is more than
/// 200 times the other.
pub proof fn law_long_images_are_refused(
    height: usize,
    width: usize,
    factor: usize,
    min_pixels: usize,
    max_pixels: usize,
)
    requires
        0 < factor <= height < 0x8000000000,
        factor <= width < 0x8000000000,
    ensures
        resized(height, width, factor, min_pixels, max_pixels) is Err <==> height > 200 * width
            || width > 200 * height,
        height > 200 * width ==> resized(height, width, factor, min_pixels, max_pixels)
            == Err::<(int, int), ResizeError>(ResizeError { longer: height, shorter: width }),
        width > 200 * height ==> resized(height, width, factor, min_pixels, max_pixels)
            == Err::<(int, int), ResizeError>(ResizeError { longer: width, shorter: height }),
{
    let l = longer(height, width) as int;
    let s = shorter(height, width) as int;
    if l <= 200 * s {
        vstd::arithmetic::power2::lemma2_to64_rest();
        precision::lemma_exact_quotient(l as nat, s as nat, 200, 53);
        assert(!too_long(height, width));
    } else {
        let t = rounding::quotient(double(l as nat), double(s as nat), 53);
        lemma_double_ratio(l as nat, s as nat);
        let n = numer(t);
        let d = denom(t);
        let k: int = 0x1000000000000;
        if n <= 200 * d {
            assert((k - 1) * ((200 * s + 1) * d) <= k * (s * (200 * d))) by (nonlinear_arith)
                requires
                    (k - 1) * (l * d) <= k * (s * n),
                    l >= 200 * s + 1,
                    n <= 200 * d,
                    d > 0,
                    s > 0,
                    k > 1,
            ;
            assert((k - 1) * (200 * s + 1) <= k * (200 * s)) by (nonlinear_arith)
                requires
                    (k - 1) * ((200 * s + 1) * d) <= k * (s * (200 * d)),
                    d > 0,
            ;
            assert(200 * s >= k - 1);
        }
        assert(too_long(height, width));
    }
}

proof fn lemma_constants(k: int)
    requires
        k == 0x20000000000000,
    ensures
        ({
            let p = (k - 1) * (k - 1) * (k - 1);
            let q = k * k * (k + 1);
            let p2 = k * k * (k - 1);
            let q2 = (k + 1) * (k + 1) * (k + 1);
            let r = k * k * (k - 1);
            let s = (k + 2) * (k + 1) * (k + 1);
            let r2 = (k - 2) * (k - 1) * (k - 1);
            let s2 = k * k * (k + 1);
            &&& p * p * r > 0
            &&& q * q * s > 0
            &&& p2 * p2 * r2 > 0
            &&& q2 * q2 * s2 > 0
            &&& p * p * r2 > 0
            &&& q * q * s2 > 0
            &&& p2 * p2 * r > 0
            &&& q2 * q2 * s > 0
            &&& 0xffffffffffff * (q * q * s) <= 0x1000000000000 * (p * p * r)
            &&& 0xffffffffffff * (q2 * q2 * s2) <= 0x1000000000000 * (p2 * p2 * r2)
            &&& 0xffffffffffff * (q * q * s2) <= 0x1000000000000 * (p * p * r2)
            &&& 0xffffffffffff * (q2 * q2 * s) <= 0x1000000000000 * (p2 * p2 * r)
        }),
{
    let p = (k - 1) * (k - 1) * (k - 1);
    let q = k * k * (k + 1);
    let p2 = k * k * (k - 1);
    let q2 = (k + 1) * (k + 1) * (k + 1);
    let s = (k + 2) * (k + 1) * (k + 1);
    let r2 = (k - 2) * (k - 1) * (k - 1);
    assert(p == 0x7ffffffffffff40000000000005fffffffffffffint) by (nonlinear_arith)
        requires
            k == 0x20000000000000,
            p == (k - 1) * (k - 1) * (k - 1),
    ;
    assert(q == 0x8000000000000400000000000000000000000000int) by (nonlinear_arith)
        requires
            k == 0x20000000000000,
            q == k * k * (k + 1),
    ;
    assert(p2 == 0x7ffffffffffffc00000000000000000000000000int) by (nonlinear_arith)
        requires
            k == 0x20000000000000,
            p2 == k * k * (k - 1),
    ;
    assert(q2 == 0x8000000000000c00000000000060000000000001int) by (nonlinear_arith)
        requires
            k == 0x20000000000000,
            q2 == (k + 1) * (k + 1) * (k + 1),
    ;
    assert(s == 0x80000000000010000000000000a0000000000002int) by (nonlinear_arith)
        requires
            k == 0x20000000000000,
            s == (k + 2) * (k + 1) * (k + 1),
    ;
    assert(r2 == 0x7ffffffffffff00000000000009ffffffffffffeint) by (nonlinear_arith)
        requires
            k == 0x20000000000000,
            r2 == (k - 2) * (k - 1) * (k - 1),
    ;
    assert(p * p * p2 == 0x1ffffffffffff9000000000000a7fffffffffff740000000000045fffffffffffeb00000000000037ffffffffffffc00000000000000000000000000int) by (nonlinear_arith)
        requires
            p == 0x7ffffffffffff40000000000005fffffffffffffint,
            p2 == 0x7ffffffffffffc00000000000000000000000000int,
    ;
    assert(q * q * s == 0x200000000000060000000000007000000000000400000000000012000000000000200000000000000000000000000000000000000000000000000000int) by (nonlinear_arith)
        requires
            q == 0x8000000000000400000000000000000000000000int,
            s == 0x80000000000010000000000000a0000000000002int,
    ;
    assert(p2 * p2 * r2 == 0x1ffffffffffffa0000000000006ffffffffffffc00000000000011ffffffffffffe00000000000000000000000000000000000000000000000000000int) by (nonlinear_arith)
        requires
            p2 == 0x7ffffffffffffc00000000000000000000000000int,
            r2 == 0x7ffffffffffff00000000000009ffffffffffffeint,
    ;
    assert(q2 * q2 * q == 0x20000000000007000000000000a8000000000008c0000000000046000000000001500000000000038000000000000400000000000000000000000000int) by (nonlinear_arith)
        requires
            q2 == 0x8000000000000c00000000000060000000000001int,
            q == 0x8000000000000400000000000000000000000000int,
    ;
    assert(p * p * r2 == 0x1ffffffffffff60000000000015fffffffffffe40000000000016bfffffffffff3c0000000000045ffffffffffff000000000000021ffffffffffffeint) by (nonlinear_arith)
        requires
            p == 0x7ffffffffffff40000000000005fffffffffffffint,
            r2 == 0x7ffffffffffff00000000000009ffffffffffffeint,
    ;
    assert(q * q * q == 0x200000000000030000000000001800000000000040000000000000000000000000000000000000000000000000000000000000000000000000000000int) by (nonlinear_arith)
        requires
            q == 0x8000000000000400000000000000000000000000int,
    ;
    assert(p2 * p2 * p2 == 0x1ffffffffffffd00000000000017ffffffffffffc0000000000000000000000000000000000000000000000000000000000000000000000000000000int) by (nonlinear_arith)
        requires
            p2 == 0x7ffffffffffffc00000000000000000000000000int,
    ;
    assert(q2 * q2 * s == 0x2000000000000a0000000000016000000000001c0000000000016c00000000000c400000000000460000000000010000000000000220000000000002int) by (nonlinear_arith)
        requires
            q2 == 0x8000000000000c00000000000060000000000001int,
            s == 0x80000000000010000000000000a0000000000002int,
    ;
}

/// A side that is shrunk, against the side itself: with one factor more it is past the
/// side scaled to the limit, and by itself it is not.
proof fn lemma_shrunk_between(side: usize, factor: usize, area: nat, max_pixels: usize)
    requires
        side > 0,
        factor > 0,
        area > 0,
        max_pixels > 0,
    ensures
        ({
            let y = shrunk(side, factor, area, max_pixels) * factor;
            &&& shrunk(side, factor, area, max_pixels) < usize::MAX ==> 0xffffffffffff * (max_pixels
                * (side * side)) <= 0x1000000000000 * (area * ((y + factor) * (y + factor)))
            &&& 0xffffffffffff * (area * (y * y)) <= 0x1000000000000 * (max_pixels * (side * side))
        }),
{
    vstd::arithmetic::power2::lemma2_to64_rest();
    let k: int = 0x20000000000000;
    let b = rounding::square_root(
        rounding::quotient(double(area), double(max_pixels as nat), 53),
        53,
    );
    precision::lemma_root_of_ratio_error(area, max_pixels as nat, 53);
    precision::lemma_divided_error(side as nat, b, factor as nat, 53);
    lemma_shrunk_side(side, factor, area, max_pixels, k);
    let r = rounding::quotient(
        rounding::quotient(double(side as nat), b, 53),
        double(factor as nat),
        53,
    );
    precision::lemma_parts(b);
    precision::lemma_parts(r);
    rounding::law_floors_are_below(r);
    let n = numer(r);
    let d = denom(r);
    let nb = numer(b);
    let db = denom(b);
    let m = shrunk(side, factor, area, max_pixels) as int;
    let f = factor as int;
    let h = side as int;
    let a = area as int;
    let c = max_pixels as int;
    let y = m * f;
    let z = y + f;
    let p = (k - 1) * (k - 1) * (k - 1);
    let q = k * k * (k + 1);
    let p2 = k * k * (k - 1);
    let q2 = (k + 1) * (k + 1) * (k + 1);
    let rr = k * k * (k - 1);
    let s = (k + 2) * (k + 1) * (k + 1);
    let r2 = (k - 2) * (k - 1) * (k - 1);
    let s2 = k * k * (k + 1);
    lemma_constants(k);
    assert(y >= 0 && z >= 0);
    assert(c * (h * h) >= 0 && a * (z * z) >= 0 && a * (y * y) >= 0) by (nonlinear_arith)
        requires
            c >= 0,
            a >= 0,
    ;
    if m < usize::MAX {
        assert(m == rounding::floor(r));
        assert(n < (m + 1) * d);
        assert(f * n <= z * d) by (nonlinear_arith)
            requires
                n < (m + 1) * d,
                y == m * f,
                z == y + f,
                f > 0,
        ;
        assert(p * h * db * d <= q * (f * n) * nb);
        assert(q * (f * n) * nb <= q * (z * d) * nb) by (nonlinear_arith)
            requires
                f * n <= z * d,
                q >= 0,
                nb >= 0,
        ;
        assert(q * (z * d) * nb == q * nb * z * d) by (nonlinear_arith);
        precision::lemma_divide(p * h * db, q * nb * z, d);
        assert(rr * c * (nb * nb) <= s * a * (db * db));
        precision::lemma_squared(p, q, rr, s, h, db, nb, z, c, a);
        precision::lemma_weaker(
            p * p * rr,
            q * q * s,
            0xffffffffffff,
            0x1000000000000,
            c * (h * h),
            a * (z * z),
        );
    }
    assert(p2 * y * nb <= q2 * h * db);
    assert(q2 * h * db == q2 * db * h) by (nonlinear_arith);
    assert(r2 * a * (db * db) <= s2 * c * (nb * nb));
    precision::lemma_squared(p2, q2, r2, s2, y, nb, db, h, a, c);
    precision::lemma_weaker(
        p2 * p2 * r2,
        q2 * q2 * s2,
        0xffffffffffff,
        0x1000000000000,
        a * (y * y),
        c * (h * h),
    );
}

/// A side that grows, against the side itself: it reaches the side scaled to the limit,
/// and with one factor less it does not.
proof fn lemma_grown_between(side: usize, factor: usize, area: nat, min_pixels: usize)
    requires
        side > 0,
        factor > 0,
        area > 0,
        min_pixels > 0,
    ensures
        ({
            let y = grown(side, factor, area, min_pixels) * factor;
            &&& y >= factor
            &&& grown(side, factor, area, min_pixels) < usize::MAX ==> 0xffffffffffff * (min_pixels
                * (side * side)) <= 0x1000000000000 * (area * (y * y))
            &&& 0xffffffffffff * (area * ((y - factor) * (y - factor))) <= 0x1000000000000 * (
            min_pixels * (side * side))
        }),
{
    vstd::arithmetic::power2::lemma2_to64_rest();
    let k: int = 0x20000000000000;
    let b = rounding::square_root(
        rounding::quotient(double(min_pixels as nat), double(area), 53),
        53,
    );
    precision::lemma_root_of_ratio_error(min_pixels as nat, area, 53);
    precision::lemma_multiplied_error(side as nat, b, factor as nat, 53);
    lemma_grown_side(side, factor, area, min_pixels, k);
    let r = rounding::quotient(
        rounding::product(double(side as nat), b, 53),
        double(factor as nat),
        53,
    );
    precision::lemma_parts(b);
    precision::lemma_parts(r);
    rounding::law_ceilings_are_above(r);
    let n = numer(r);
    let d = denom(r);
    let nb = numer(b);
    let db = denom(b);
    let m = grown(side, factor, area, min_pixels) as int;
    let f = factor as int;
    let h = side as int;
    let a = area as int;
    let c = min_pixels as int;
    let y = m * f;
    let z = y - f;
    let t = rounding::ceiling(r) as int;
    assert((t - 1) * d < n);
    assert(m <= t);
    assert((m - 1) * d < n) by (nonlinear_arith)
        requires
            (t - 1) * d < n,
            m <= t,
            d > 0,
    ;
    assert(z * d <= f * n && z >= 0) by (nonlinear_arith)
        requires
            (m - 1) * d < n,
            y == m * f,
            z == y - f,
            m >= 1,
            f > 0,
    ;
    let p = (k - 1) * (k - 1) * (k - 1);
    let q = k * k * (k + 1);
    let p2 = k * k * (k - 1);
    let q2 = (k + 1) * (k + 1) * (k + 1);
    let rr = k * k * (k - 1);
    let s = (k + 2) * (k + 1) * (k + 1);
    let r2 = (k - 2) * (k - 1) * (k - 1);
    let s2 = k * k * (k + 1);
    lemma_constants(k);
    assert(c * (h * h) >= 0 && a * (z * z) >= 0 && a * (y * y) >= 0) by (nonlinear_arith)
        requires
            c >= 0,
            a >= 0,
    ;
    if m < usize::MAX {
        assert(p * h * nb <= q * y * db);
        assert(q * y * db == q * db * y) by (nonlinear_arith);
        assert(r2 * c * (db * db) <= s2 * a * (nb * nb));
        precision::lemma_squared(p, q, r2, s2, h, nb, db, y, c, a);
        precision::lemma_weaker(
            p * p * r2,
            q * q * s2,
            0xffffffffffff,
            0x1000000000000,
            c * (h * h),
            a * (y * y),
        );
    }
    assert(p2 * (f * n) * db <= q2 * h * nb * d);
    assert(p2 * (z * d) * db <= p2 * (f * n) * db) by (nonlinear_arith)
        requires
            z * d <= f * n,
            p2 >= 0,
            db >= 0,
    ;
    assert(p2 * (z * d) * db == p2 * z * db * d) by (nonlinear_arith);
    precision::lemma_divide(p2 * z * db, q2 * h * nb, d);
    assert(q2 * h * nb == q2 * nb * h) by (nonlinear_arith);
    assert(rr * a * (nb * nb) <= s * c * (db * db));
    precision::lemma_squared(p2, q2, rr, s, z, db, nb, h, a, c);
    precision::lemma_weaker(
        p2 * p2 * rr,
        q2 * q2 * s,
        0xffffffffffff,
        0x1000000000000,
        a * (z * z),
        c * (h * h),
    );
}

/// Rounding sides to multiples of a factor that they hold makes less than nine quarters
/// of the area of them.
proof fn lemma_rounded_area(h: int, w: int, f: int, n: int, m: int, c: int)
    requires
        0 < f <= h,
        f <= w,
        n >= 0,
        m >= 0,
        2 * (n * f - h) < f,
        2 * (m * f - w) < f,
        c < (n * f) * (m * f),
    ensures
        4 * c <= 9 * (h * w),
        4 * c <= 9 * (w * h),
{
    let p = n * f;
    let q = m * f;
    assert(p >= 0 && q >= 0) by (nonlinear_arith)
        requires
            p == n * f,
            q == m * f,
            n >= 0,
            m >= 0,
            f > 0,
    ;
    assert((2 * p) * (2 * q) <= (3 * h) * (3 * w)) by (nonlinear_arith)
        requires
            0 <= p,
            0 <= q,
            2 * p <= 3 * h,
            2 * q <= 3 * w,
    ;
    assert((2 * p) * (2 * q) == 4 * (p * q)) by (nonlinear_arith);
    assert((3 * h) * (3 * w) == 9 * (h * w)) by (nonlinear_arith);
    assert(h * w == w * h) by (nonlinear_arith);
}

/// A side that is shrunk is less than twice the side.
proof fn lemma_shrunk_fits(m: int, y: int, h: int, w: int, f: int, c: int)
    requires
        m >= 0,
        h > 0,
        w > 0,
        f > 0,
        c > 0,
        y == m * f,
        4 * c <= 9 * (h * w),
        0xffffffffffff * ((h * w) * (y * y)) <= 0x1000000000000 * (c * (h * h)),
    ensures
        m <= 2 * h,
{
    assert(y >= m) by (nonlinear_arith)
        requires
            y == m * f,
            m >= 0,
            f >= 1,
    ;
    let a = h * w;
    assert(a > 0) by (nonlinear_arith)
        requires
            a == h * w,
            h > 0,
            w > 0,
    ;
    if y > 2 * h {
        assert(y * y >= 4 * (h * h)) by (nonlinear_arith)
            requires
                y > 2 * h,
                h > 0,
        ;
        let hh = h * h;
        assert(hh > 0) by (nonlinear_arith)
            requires
                hh == h * h,
                h > 0,
        ;
        let t = a * hh;
        assert(t > 0) by (nonlinear_arith)
            requires
                t == a * hh,
                a > 0,
                hh > 0,
        ;
        assert(a * (y * y) >= 4 * t) by (nonlinear_arith)
            requires
                y * y >= 4 * hh,
                t == a * hh,
                a > 0,
        ;
        assert(4 * (c * hh) <= 9 * t) by (nonlinear_arith)
            requires
                4 * c <= 9 * a,
                t == a * hh,
                hh > 0,
        ;
    }
}

/// A side that grows stays in the machine's numbers.
proof fn lemma_grown_fits(m: int, y: int, h: int, w: int, f: int, c: int)
    requires
        0 < m <= usize::MAX,
        h > 0,
        w > 0,
        f > 0,
        0 < c <= usize::MAX,
        h <= 200 * w,
        y == m * f,
        0xffffffffffff * ((h * w) * ((y - f) * (y - f))) <= 0x1000000000000 * (c * (h * h)),
    ensures
        m < usize::MAX,
{
    if m == usize::MAX {
        let z = y - f;
        assert(z >= m - 1) by (nonlinear_arith)
            requires
                z == y - f,
                y == m * f,
                m >= 1,
                f >= 1,
        ;
        assert(z >= 1000);
        let zz = z * z;
        assert(zz >= 1000 * z) by (nonlinear_arith)
            requires
                zz == z * z,
                z >= 1000,
        ;
        assert(zz >= 402 * c);
        let t = h * w;
        let hh = h * h;
        assert(hh <= 200 * t && t > 0) by (nonlinear_arith)
            requires
                hh == h * h,
                t == h * w,
                0 < h <= 200 * w,
                w > 0,
        ;
        let tc = t * c;
        assert(tc > 0) by (nonlinear_arith)
            requires
                tc == t * c,
                t > 0,
                c > 0,
        ;
        assert(t * zz >= 402 * tc) by (nonlinear_arith)
            requires
                zz >= 402 * c,
                t > 0,
                tc == t * c,
        ;
        assert(c * hh <= 200 * tc) by (nonlinear_arith)
            requires
                hh <= 200 * t,
                c > 0,
                tc == t * c,
        ;
    }
}

/// An image of too many pixels keeps its shape: each side becomes the greatest multiple
/// of the factor that is not above the side scaled to the limit, but for one part in
/// `2^48` of the squares, and at least one factor.
pub proof fn law_large_images_keep_their_shape(
    height: usize,
    width: usize,
    factor: usize,
    min_pixels: usize,
    max_pixels: usize,
    n: int,
    m: int,
)
    requires
        0 < factor <= height < 0x400000000000,
        factor <= width < 0x400000000000,
        longer(height, width) <= 200 * shorter(height, width),
        n >= 0,
        m >= 0,
        -factor < 2 * (n * factor - height) < factor,
        -factor < 2 * (m * factor - width) < factor,
        0 < max_pixels < (n * factor) * (m * factor),
        2 * height < usize::MAX,
        2 * width < usize::MAX,
    ensures
        resized(height, width, factor, min_pixels, max_pixels) matches Ok(sides) && {
            let area = height * width;
            &&& sides.0 >= factor
            &&& sides.1 >= factor
            &&& 0xffffffffffff * (max_pixels * (height * height)) <= 0x1000000000000 * (area * ((
            sides.0 + factor) * (sides.0 + factor)))
            &&& 0xffffffffffff * (max_pixels * (width * width)) <= 0x1000000000000 * (area * ((
            sides.1 + factor) * (sides.1 + factor)))
            &&& sides.0 > factor ==> 0xffffffffffff * (area * (sides.0 * sides.0))
                <= 0x1000000000000 * (max_pixels * (height * height))
            &&& sides.1 > factor ==> 0xffffffffffff * (area * (sides.1 * sides.1))
                <= 0x1000000000000 * (max_pixels * (width * width))
        },
{
    lemma_snapped_nearest(height, factor, n);
    lemma_snapped_nearest(width, factor, m);
    vstd::arithmetic::power2::lemma2_to64_rest();
    precision::lemma_exact_quotient(
        longer(height, width) as nat,
        shorter(height, width) as nat,
        200,
        53,
    );
    assert(!too_long(height, width));
    let area = height * width;
    assert(area > 0) by (nonlinear_arith)
        requires
            area == height * width,
            height > 0,
            width > 0,
    ;
    lemma_shrunk_between(height, factor, area as nat, max_pixels);
    lemma_shrunk_between(width, factor, area as nat, max_pixels);
    let y = shrunk(height, factor, area as nat, max_pixels) * factor;
    let x = shrunk(width, factor, area as nat, max_pixels) * factor;
    let f = factor as int;
    assert(y >= 0 && x >= 0) by (nonlinear_arith)
        requires
            y == shrunk(height, factor, area as nat, max_pixels) * factor,
            x == shrunk(width, factor, area as nat, max_pixels) * factor,
    ;
    let area_again = width * height;
    assert(area_again == area) by (nonlinear_arith)
        requires
            area == height * width,
            area_again == width * height,
    ;
    lemma_rounded_area(height as int, width as int, f, n, m, max_pixels as int);
    lemma_shrunk_fits(
        shrunk(height, factor, area as nat, max_pixels) as int,
        y,
        height as int,
        width as int,
        f,
        max_pixels as int,
    );
    lemma_shrunk_fits(
        shrunk(width, factor, area as nat, max_pixels) as int,
        x,
        width as int,
        height as int,
        f,
        max_pixels as int,
    );
    assert(y < f ==> area * ((y + f) * (y + f)) <= area * ((f + f) * (f + f))) by (nonlinear_arith)
        requires
            y >= 0,
            area > 0,
            f > 0,
    ;
    assert(x < f ==> area * ((x + f) * (x + f)) <= area * ((f + f) * (f + f))) by (nonlinear_arith)
        requires
            x >= 0,
            area > 0,
            f > 0,
    ;
}

/// An image of too few pixels keeps its shape: each side becomes the least multiple of
/// the factor that is not below the side scaled to the limit, but for one part in `2^48`
/// of the squares.
pub proof fn law_small_images_keep_their_shape(
    height: usize,
    width: usize,
    factor: usize,
    min_pixels: usize,
    max_pixels: usize,
    n: int,
    m: int,
)
    requires
        0 < factor <= height < 0x400000000000,
        factor <= width < 0x400000000000,
        longer(height, width) <= 200 * shorter(height, width),
        n >= 0,
        m >= 0,
        -factor < 2 * (n * factor - height) < factor,
        -factor < 2 * (m * factor - width) < factor,
        (n * factor) * (m * factor) <= max_pixels,
        (n * factor) * (m * factor) < min_pixels,
    ensures
        resized(height, width, factor, min_pixels, max_pixels) matches Ok(sides) && {
            let area = height * width;
            &&& sides.0 >= factor
            &&& sides.1 >= factor
            &&& 0xffffffffffff * (min_pixels * (height * height)) <= 0x1000000000000 * (area * (
            sides.0 * sides.0))
            &&& 0xffffffffffff * (min_pixels * (width * width)) <= 0x1000000000000 * (area * (
            sides.1 * sides.1))
            &&& 0xffffffffffff * (area * ((sides.0 - factor) * (sides.0 - factor)))
                <= 0x1000000000000 * (min_pixels * (height * height))
            &&& 0xffffffffffff * (area * ((sides.1 - factor) * (sides.1 - factor)))
                <= 0x1000000000000 * (min_pixels * (width * width))
        },
{
    lemma_snapped_nearest(height, factor, n);
    lemma_snapped_nearest(width, factor, m);
    vstd::arithmetic::power2::lemma2_to64_rest();
    precision::lemma_exact_quotient(
        longer(height, width) as nat,
        shorter(height, width) as nat,
        200,
        53,
    );
    assert(!too_long(height, width));
    let area = height * width;
    assert(area > 0) by (nonlinear_arith)
        requires
            area == height * width,
            height > 0,
            width > 0,
    ;
    assert((n * factor) * (m * factor) >= 0) by (nonlinear_arith)
        requires
            n >= 0,
            m >= 0,
            factor > 0,
    ;
    lemma_grown_between(height, factor, area as nat, min_pixels);
    lemma_grown_between(width, factor, area as nat, min_pixels);
    let area_again = width * height;
    assert(area_again == area) by (nonlinear_arith)
        requires
            area == height * width,
            area_again == width * height,
    ;
    let y = grown(height, factor, area as nat, min_pixels);
    let x = grown(width, factor, area as nat, min_pixels);
    let f = factor as int;
    assert(y > 0 && x > 0) by (nonlinear_arith)
        requires
            y * f >= f,
            x * f >= f,
            f > 0,
            y >= 0,
            x >= 0,
    ;
    lemma_grown_fits(y as int, y * f, height as int, width as int, f, min_pixels as int);
    lemma_grown_fits(x as int, x * f, width as int, height as int, f, min_pixels as int);
}

proof fn lemma_chained(p: int, q: int, u: int, v: int, x: int, y: int, n: int, d: int, f: int)
    requires
        p >= 0,
        v >= 0,
        x >= 0,
        d > 0,
        p * x * n <= q * y * d,
        u * f * d <= v * n,
    ensures
        p * u * (x * f) <= q * v * y,
{
    let px = p * x;
    assert(px >= 0) by (nonlinear_arith)
        requires
            px == p * x,
            p >= 0,
            x >= 0,
    ;
    assert((u * f * d) * px <= (v * n) * px) by (nonlinear_arith)
        requires
            u * f * d <= v * n,
            px >= 0,
    ;
    assert((px * n) * v <= (q * y * d) * v) by (nonlinear_arith)
        requires
            px * n <= q * y * d,
            v >= 0,
    ;
    assert((v * n) * px == (px * n) * v) by (nonlinear_arith);
    assert((u * f * d) * px == (u * f * px) * d) by (nonlinear_arith);
    assert((q * y * d) * v == (q * v * y) * d) by (nonlinear_arith);
    precision::lemma_divide(u * f * px, q * v * y, d);
    assert(u * f * px == p * u * (x * f)) by (nonlinear_arith)
        requires
            px == p * x,
    ;
}

proof fn lemma_chained_above(p: int, q: int, u: int, v: int, x: int, y: int, n: int, d: int, f: int)
    requires
        q >= 0,
        v >= 0,
        x >= 0,
        d > 0,
        p * y * d <= q * x * n,
        v * n <= u * f * d,
    ensures
        p * v * y <= q * u * (x * f),
{
    let qx = q * x;
    assert(qx >= 0) by (nonlinear_arith)
        requires
            qx == q * x,
            q >= 0,
            x >= 0,
    ;
    assert((v * n) * qx <= (u * f * d) * qx) by (nonlinear_arith)
        requires
            v * n <= u * f * d,
            qx >= 0,
    ;
    assert((p * y * d) * v <= (qx * n) * v) by (nonlinear_arith)
        requires
            p * y * d <= qx * n,
            v >= 0,
    ;
    assert((v * n) * qx == (qx * n) * v) by (nonlinear_arith);
    assert((u * f * d) * qx == (u * f * qx) * d) by (nonlinear_arith);
    assert((p * y * d) * v == (p * v * y) * d) by (nonlinear_arith);
    precision::lemma_divide(p * v * y, u * f * qx, d);
    assert(u * f * qx == q * u * (x * f)) by (nonlinear_arith)
        requires
            qx == q * x,
    ;
}

proof fn lemma_stretched_nearest(side: usize, factor: usize, other: usize, n: int)
    requires
        side > 0,
        factor > 0,
        other > 0,
        0 <= n <= usize::MAX,
        2 * (side * factor + other) < 0x1000000000000,
        -other < 2 * (n * other - side * factor) < other,
    ensures
        stretched(side, factor, other) == n,
{
    vstd::arithmetic::power2::lemma2_to64_rest();
    let k: int = 0x20000000000000;
    let b = double(factor as nat);
    precision::lemma_integer_error(factor as nat, 53);
    precision::lemma_parts(b);
    let w = side as int;
    let f = factor as int;
    let h = other as int;
    let nb = numer(b);
    let db = denom(b);
    assert(b.m > 0) by {
        assert(nb > 0) by (nonlinear_arith)
            requires
                (k - 1) * f * db <= k * nb,
                k == 0x20000000000000,
                f > 0,
                db > 0,
        ;
        if b.m == 0 {
            assert(numer(b) == 0) by (nonlinear_arith)
                requires
                    b.m == 0,
                    numer(b) == b.m * vstd::arithmetic::power2::pow2(rounding::up(b.e)),
            ;
        }
    }
    precision::lemma_multiplied_error(side as nat, b, other as nat, 53);
    let r = rounding::quotient(
        rounding::product(double(side as nat), b, 53),
        double(other as nat),
        53,
    );
    precision::lemma_parts(r);
    let nr = numer(r);
    let dr = denom(r);
    let x = w * dr;
    let y = h * nr;
    let a = w * f;
    let z = a * dr;
    let p = (k - 1) * (k - 1) * (k - 1);
    let q = k * k * (k + 1);
    let p2 = k * k * (k - 1);
    let q2 = (k + 1) * (k + 1) * (k + 1);
    assert(p == 0x7ffffffffffff40000000000005fffffffffffffint) by (nonlinear_arith)
        requires
            k == 0x20000000000000,
            p == (k - 1) * (k - 1) * (k - 1),
    ;
    assert(q == 0x8000000000000400000000000000000000000000int) by (nonlinear_arith)
        requires
            k == 0x20000000000000,
            q == k * k * (k + 1),
    ;
    assert(p2 == 0x7ffffffffffffc00000000000000000000000000int) by (nonlinear_arith)
        requires
            k == 0x20000000000000,
            p2 == k * k * (k - 1),
    ;
    assert(q2 == 0x8000000000000c00000000000060000000000001int) by (nonlinear_arith)
        requires
            k == 0x20000000000000,
            q2 == (k + 1) * (k + 1) * (k + 1),
    ;
    assert(x >= 0 && y >= 0 && z >= 0 && a > 0) by (nonlinear_arith)
        requires
            x == w * dr,
            y == h * nr,
            a == w * f,
            z == a * dr,
            w > 0,
            h > 0,
            f > 0,
            dr > 0,
            nr >= 0,
    ;
    assert(p * w * nb * dr == p * x * nb) by (nonlinear_arith)
        requires
            x == w * dr,
    ;
    lemma_chained(p, q, k - 1, k, x, y, nb, db, f);
    assert(q2 * w * nb * dr == q2 * x * nb) by (nonlinear_arith)
        requires
            x == w * dr,
    ;
    lemma_chained_above(p2, q2, k + 1, k, x, y, nb, db, f);
    assert(x * f == z) by (nonlinear_arith)
        requires
            x == w * dr,
            z == a * dr,
            a == w * f,
    ;
    assert(p * (k - 1) == 0xffffffffffffe00000000000017ffffffffffff80000000000001int && q * k == 0x100000000000008000000000000000000000000000000000000000int && p2 * k == 0xfffffffffffff8000000000000000000000000000000000000000int && q2 * (k
        + 1) == 0x100000000000020000000000001800000000000080000000000001int) by (nonlinear_arith)
        requires
            k == 0x20000000000000,
            p == 0x7ffffffffffff40000000000005fffffffffffffint,
            q == 0x8000000000000400000000000000000000000000int,
            p2 == 0x7ffffffffffffc00000000000000000000000000int,
            q2 == 0x8000000000000c00000000000060000000000001int,
    ;
    precision::lemma_weaker(p * (k - 1), q * k, 0xffffffffffff, 0x1000000000000, z, y);
    precision::lemma_weaker(p2 * k, q2 * (k + 1), 0x1000000000000, 0x1000000000001, y, z);
    lemma_rounds_to_nearest(r, a, h, n);
}

/// A height below the factor is brought up to it, and the width grows by as much: the
/// image goes where one of that height and of the width nearest to the one that keeps
/// its shape goes.
pub proof fn law_low_images_are_brought_up_to_the_factor(
    height: usize,
    width: usize,
    factor: usize,
    min_pixels: usize,
    max_pixels: usize,
    n: usize,
)
    requires
        0 < height < factor,
        0 < width,
        2 * (width * factor + height) < 0x1000000000000,
        -height < 2 * (n * height - width * factor) < height,
        n >= factor,
    ensures
        resized(height, width, factor, min_pixels, max_pixels) == resized(
            factor,
            n,
            factor,
            min_pixels,
            max_pixels,
        ),
{
    lemma_stretched_nearest(width, factor, height, n as int);
}

/// A width below the factor is brought up to it, and the height grows by as much: the
/// image goes where one of that width and of the height nearest to the one that keeps
/// its shape goes.
pub proof fn law_narrow_images_are_brought_up_to_the_factor(
    height: usize,
    width: usize,
    factor: usize,
    min_pixels: usize,
    max_pixels: usize,
    n: usize,
)
    requires
        0 < width < factor <= height,
        2 * (height * factor + width) < 0x1000000000000,
        -width < 2 * (n * width - height * factor) < width,
        n >= factor,
    ensures
        resized(height, width, factor, min_pixels, max_pixels) == resized(
            n,
            factor,
            factor,
            min_pixels,
            max_pixels,
        ),
{
    lemma_stretched_nearest(height, factor, width, n as int);
}

} // verus!

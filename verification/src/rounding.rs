//! Binary rounding of non-negative quantities, in integers.
//!
//! The image processor and the page renderer work in binary floating point with
//! round-to-nearest-even. Their quantities are non-negative and stay well
//! inside the exponent range, so a value is a significand and a power of two,
//! and each operation is the exact result rounded to the working precision.

use vstd::arithmetic::div_mod::*;
use vstd::arithmetic::power2::*;
use vstd::prelude::*;

verus! {

/// Significant bits of a double.
pub const DOUBLE: u32 = 53;

/// Significant bits of a single.
pub const SINGLE: u32 = 24;

/// The value `significand * 2^exponent`.
#[derive(Clone, Copy, Debug, PartialEq, Eq, Structural)]
pub struct Binary {
    pub significand: u64,
    pub exponent: i32,
}

/// Mathematical reading of a [`Binary`].
pub struct Bin {
    pub m: nat,
    pub e: int,
}

impl View for Binary {
    type V = Bin;

    open spec fn view(&self) -> Bin {
        Bin { m: self.significand as nat, e: self.exponent as int }
    }
}

pub open spec fn up(e: int) -> nat {
    if e > 0 {
        e as nat
    } else {
        0
    }
}

pub open spec fn down(e: int) -> nat {
    if e < 0 {
        (-e) as nat
    } else {
        0
    }
}

/// `num / den` is at least `2^(p - 1)` and below `2^p` in units of `2^e`.
pub open spec fn in_binade(num: nat, den: nat, p: nat, e: int) -> bool {
    pow2((p - 1) as nat) * (den * pow2(up(e))) <= num * pow2(down(e)) < pow2(p) * (den * pow2(
        up(e),
    ))
}

/// The unit exponent that gives `num / den` exactly `p` integer bits.
pub open spec fn binade(num: nat, den: nat, p: nat) -> int {
    choose|e: int| in_binade(num, den, p, e)
}

/// `num / den` rounded to an integer, halves to even.
pub open spec fn half_even(num: nat, den: nat) -> nat {
    let q = num / den;
    let r = num % den;
    if 2 * r < den || (2 * r == den && q % 2 == 0) {
        q
    } else {
        q + 1
    }
}

/// `num / den` rounded to `p` significant bits, halves to even.
pub open spec fn nearest(num: nat, den: nat, p: nat) -> Bin {
    if num == 0 {
        Bin { m: 0, e: 0 }
    } else {
        let e = binade(num, den, p);
        Bin { m: half_even(num * pow2(down(e)), den * pow2(up(e))), e }
    }
}

/// `x * 2^n`.
pub open spec fn shifted(x: Bin, n: int) -> Bin {
    Bin { m: x.m, e: x.e + n }
}

/// Correctly rounded product.
pub open spec fn product(x: Bin, y: Bin, p: nat) -> Bin {
    shifted(nearest(x.m * y.m, 1, p), x.e + y.e)
}

/// Correctly rounded quotient.
pub open spec fn quotient(x: Bin, y: Bin, p: nat) -> Bin {
    shifted(nearest(x.m, y.m, p), x.e - y.e)
}

/// Greatest integer whose square is at most `n`.
pub open spec fn is_root(n: nat, r: nat) -> bool {
    r * r <= n < (r + 1) * (r + 1)
}

pub open spec fn root(n: nat) -> nat {
    choose|r: nat| is_root(n, r)
}

/// Square root of `n` rounded to an integer. A half cannot occur.
pub open spec fn rounded_root(n: nat) -> nat {
    let r = root(n);
    if n - r * r > r {
        r + 1
    } else {
        r
    }
}

/// `n` carries `2 * p - 1` or `2 * p` bits once multiplied by `4^k`.
pub open spec fn in_root_binade(n: nat, p: nat, k: nat) -> bool {
    pow2((2 * p - 2) as nat) <= n * pow2(2 * k) < pow2(2 * p)
}

pub open spec fn root_binade(n: nat, p: nat) -> nat {
    choose|k: nat| in_root_binade(n, p, k)
}

/// Correctly rounded square root of `n` below `2^(2 * p)`.
pub open spec fn nearest_root(n: nat, p: nat) -> Bin {
    let k = root_binade(n, p);
    Bin { m: rounded_root(n * pow2(2 * k)), e: -k }
}

/// Correctly rounded square root.
pub open spec fn square_root(x: Bin, p: nat) -> Bin {
    if x.e % 2 == 0 {
        shifted(nearest_root(x.m, p), x.e / 2)
    } else {
        shifted(nearest_root(2 * x.m, p), (x.e - 1) / 2)
    }
}

/// Greatest integer not above `x`.
pub open spec fn floor(x: Bin) -> nat {
    x.m * pow2(up(x.e)) / pow2(down(x.e))
}

/// Least integer not below `x`.
pub open spec fn ceiling(x: Bin) -> nat {
    let unit = pow2(down(x.e));
    let n = x.m * pow2(up(x.e));
    if n % unit == 0 {
        n / unit
    } else {
        n / unit + 1
    }
}

/// `x` rounded to an integer, halves to even.
pub open spec fn to_even(x: Bin) -> nat {
    half_even(x.m * pow2(up(x.e)), pow2(down(x.e)))
}

/// `x` rounded to an integer, halves up.
pub open spec fn half_up(x: Bin) -> nat {
    (2 * (x.m * pow2(up(x.e))) + pow2(down(x.e))) / (2 * pow2(down(x.e)))
}

/// `x` is greater than the integer `n`.
pub open spec fn exceeds(x: Bin, n: nat) -> bool {
    x.m * pow2(up(x.e)) > n * pow2(down(x.e))
}

/// A quantity lies in one binade.
proof fn lemma_binade_unique(num: nat, den: nat, p: nat, e1: int, e2: int)
    requires
        p > 0,
        den > 0,
        in_binade(num, den, p, e1),
        in_binade(num, den, p, e2),
    ensures
        e1 == e2,
{
    lemma_binade_order(num, den, p, e1, e2);
    lemma_binade_order(num, den, p, e2, e1);
}

#[verifier::rlimit(40)]
proof fn lemma_binade_order(num: nat, den: nat, p: nat, e1: int, e2: int)
    requires
        p > 0,
        den > 0,
        num * pow2(down(e1)) < pow2(p) * (den * pow2(up(e1))),
        pow2((p - 1) as nat) * (den * pow2(up(e2))) <= num * pow2(down(e2)),
    ensures
        e2 <= e1,
{
    if e1 < e2 {
        let lo = pow2((p - 1) as nat) as int;
        let u1 = pow2(up(e1)) as int;
        let d1 = pow2(down(e1)) as int;
        let u2 = pow2(up(e2)) as int;
        let d2 = pow2(down(e2)) as int;
        lemma_pow2_unfold(p);
        lemma_pow2_pos((p - 1) as nat);
        lemma_pow2_pos(up(e1));
        lemma_pow2_pos(down(e1));
        lemma_pow2_pos(up(e2));
        lemma_pow2_pos(down(e2));
        lemma_pow2_adds(up(e2), down(e1));
        lemma_pow2_adds(up(e1) + 1, down(e2));
        lemma_pow2_adds(up(e1), 1);
        lemma2_to64();
        if up(e1) + 1 + down(e2) < up(e2) + down(e1) {
            lemma_pow2_strictly_increases(up(e1) + 1 + down(e2), up(e2) + down(e1));
        }
        let wide = pow2(up(e2) + down(e1)) as int;
        let narrow = pow2(up(e1) + 1 + down(e2)) as int;
        let twice = pow2(up(e1) + 1) as int;
        assert(2 * u1 * d2 <= u2 * d1) by (nonlinear_arith)
            requires
                narrow <= wide,
                wide == u2 * d1,
                narrow == twice * d2,
                twice == u1 * 2,
        ;
        let n = num as int;
        let d = den as int;
        assert(n * d1 < 2 * lo * (d * u1));
        assert(lo * (d * u2) <= n * d2);
        assert(lo * (d * u2) * d1 <= n * d2 * d1) by (nonlinear_arith)
            requires
                lo * (d * u2) <= n * d2,
                d1 > 0,
        ;
        assert(n * d1 * d2 < 2 * lo * (d * u1) * d2) by (nonlinear_arith)
            requires
                n * d1 < 2 * lo * (d * u1),
                d2 > 0,
        ;
        assert(lo * (d * u2) * d1 == lo * d * (u2 * d1)) by (nonlinear_arith);
        assert(n * d2 * d1 == n * d1 * d2) by (nonlinear_arith);
        assert(2 * lo * (d * u1) * d2 == lo * d * (2 * u1 * d2)) by (nonlinear_arith);
        let c = lo * d;
        let x = u2 * d1;
        let y = 2 * u1 * d2;
        assert(c > 0) by (nonlinear_arith)
            requires
                c == lo * d,
                lo > 0,
                d > 0,
        ;
        assert(c * y <= c * x) by (nonlinear_arith)
            requires
                c > 0,
                y <= x,
        ;
    }
}

/// `2^(p - 1)` for a supported precision.
fn least_full(p: u32) -> (lo: u64)
    requires
        p == DOUBLE || p == SINGLE,
    ensures
        lo == pow2((p - 1) as nat),
        2 * lo == pow2(p as nat),
        lo <= 0x10000000000000,
{
    proof {
        lemma2_to64();
        lemma2_to64_rest();
        lemma_pow2_unfold(p as nat);
    }
    if p == DOUBLE {
        0x10000000000000
    } else {
        0x800000
    }
}

pub proof fn lemma_times_one(n: nat)
    ensures
        n * pow2(0) == n,
        pow2(0) == 1,
{
    lemma2_to64();
    assert(n * pow2(0) == n) by (nonlinear_arith)
        requires
            pow2(0) == 1,
    ;
}

proof fn lemma_pow2_120()
    ensures
        pow2(120) == 0x1000000000000000000000000000000,
{
    lemma_pow2_adds(60, 60);
    lemma2_to64_rest();
}

proof fn lemma_exponent_below_120(e: nat, bound: int)
    requires
        pow2(e) <= bound,
        bound < 0x1000000000000000000000000000000,
    ensures
        e < 120,
{
    lemma_pow2_120();
    if e > 120 {
        lemma_pow2_strictly_increases(120, e);
    }
}

proof fn lemma_double(n: nat, e: nat)
    ensures
        n * pow2(e + 1) == 2 * (n * pow2(e)),
{
    lemma_pow2_unfold(e + 1);
    assert(n * (2 * pow2(e)) == 2 * (n * pow2(e))) by (nonlinear_arith);
}

/// `num / den` rounded to `p` significant bits.
fn round_ratio(num: u128, den: u128, p: u32) -> (x: Binary)
    requires
        p == DOUBLE || p == SINGLE,
        0 < den < 0x10000000000000000,
        num < 0x8000000000000000000000000000,
    ensures
        x@ == nearest(num as nat, den as nat, p as nat),
        x.significand <= pow2(p as nat),
        num > 0 ==> x.significand >= pow2((p - 1) as nat),
        -160 <= x.exponent <= 160,
{
    let lo: u128 = least_full(p) as u128;
    let hi: u128 = 2 * lo;
    let ghost n = num as nat;
    let ghost d = den as nat;
    proof {
        lemma_pow2_pos((p - 1) as nat);
        lemma2_to64();
    }
    if num == 0 {
        return Binary { significand: 0, exponent: 0 };
    }
    let mut a: u128 = num;
    let mut e: i32 = 0;
    assert(lo * den < 0x100000000000000000000000000000) by (nonlinear_arith)
        requires
            lo <= 0x10000000000000,
            den < 0x10000000000000000,
    ;
    let floor_den: u128 = lo * den;
    proof {
        lemma_times_one(n);
    }
    while a < floor_den
        invariant
            floor_den < 0x100000000000000000000000000000,
            num > 0,
            n == num,
            -150 <= e <= 0,
            a == n * pow2(down(e as int)),
            a >= pow2(down(e as int)),
            e < 0 ==> a < 2 * floor_den,
        decreases 200 + e,
    {
        proof {
            lemma_double(n, down(e as int));
            lemma_pow2_unfold(down(e as int) + 1);
            lemma_exponent_below_120(down(e as int), a as int);
            assert(down(e as int - 1) == down(e as int) + 1);
        }
        a = a * 2;
        e = e - 1;
    }
    let mut b: u128 = den;
    let ghost first = e;
    assert(hi * b < 0x200000000000000000000000000000) by (nonlinear_arith)
        requires
            hi <= 0x20000000000000,
            b < 0x10000000000000000,
    ;
    assert(hi * b == 2 * floor_den) by (nonlinear_arith)
        requires
            hi == 2 * lo,
            floor_den == lo * den,
            b == den,
    ;
    proof {
        lemma_times_one(d);
    }
    let mut top: u128 = hi * b;
    while a >= top
        invariant
            hi == 2 * lo,
            lo <= 0x10000000000000,
            lo >= 1,
            a < 0x8000000000000000000000000000 || a < top,
            d == den,
            den > 0,
            first <= e <= 150,
            first == e || (first == 0 && e > 0),
            first < 0 ==> a < top,
            first <= 0,
            top == hi * b,
            b == d * pow2(up(e as int)),
            b >= pow2(up(e as int)),
            top < 0x200000000000000000000000000000,
            lo * b <= a,
        decreases 200 - e,
    {
        proof {
            assert(first == 0 && e >= 0);
            lemma_double(d, up(e as int));
            lemma_pow2_unfold(up(e as int) + 1);
            assert(b <= hi * b) by (nonlinear_arith)
                requires
                    hi >= 1,
                    b >= 0,
            ;
            lemma_exponent_below_120(up(e as int), b as int);
            assert(up(e as int + 1) == up(e as int) + 1);
            assert(hi * (2 * b) == 2 * (hi * b)) by (nonlinear_arith);
            assert(lo * (2 * b) == hi * b) by (nonlinear_arith)
                requires
                    hi == 2 * lo,
            ;
        }
        b = b * 2;
        top = top * 2;
        e = e + 1;
    }
    proof {
        lemma_pow2_pos(up(e as int));
    }
    let q: u128 = a / b;
    let r: u128 = a % b;
    proof {
        assert(a == n * pow2(down(e as int)));
        assert(b == d * pow2(up(e as int)));
        assert(in_binade(n, d, p as nat, e as int));
        lemma_binade_unique(n, d, p as nat, e as int, binade(n, d, p as nat));
        lemma_fundamental_div_mod(a as int, b as int);
        assert(lo <= q < hi) by (nonlinear_arith)
            requires
                lo * b <= a,
                a < hi * b,
                a == b * q + r,
                0 <= r < b,
        ;
    }
    let m: u128 = if r < b - r || (r == b - r && q % 2 == 0) {
        q
    } else {
        q + 1
    };
    assert(m == half_even(a as nat, b as nat));
    Binary { significand: m as u64, exponent: e }
}

/// `2^k`.
fn two_to(k: u32) -> (n: u128)
    requires
        k <= 70,
    ensures
        n == pow2(k as nat),
        n <= 0x400000000000000000,
{
    let mut n: u128 = 1;
    let mut i: u32 = 0;
    proof {
        lemma2_to64();
        lemma_pow2_adds(64, 6);
    }
    while i < k
        invariant
            i <= k <= 70,
            n == pow2(i as nat),
            n <= 0x400000000000000000,
            pow2(70) == 0x400000000000000000,
        decreases k - i,
    {
        proof {
            lemma_pow2_unfold(i as nat + 1);
            if i + 1 < 70 {
                lemma_pow2_strictly_increases(i as nat + 1, 70);
            }
        }
        n = n * 2;
        i = i + 1;
    }
    n
}

/// The 64-bit number nearest to `n` from below.
pub open spec fn capped(n: nat) -> u64 {
    if n <= u64::MAX {
        n as u64
    } else {
        u64::MAX
    }
}

/// A value with at most 53 significant bits and an exponent far from the limits
/// of its type.
pub open spec fn moderate(x: Binary) -> bool {
    x.significand <= 0x20000000000000 && -100_000 <= x.exponent <= 100_000
}

/// A value as a fraction of two 128-bit numbers, where it is neither beyond
/// every 64-bit number nor below a quarter.
enum Fraction {
    Beyond,
    Tiny,
    Ratio(u128, u128),
}

fn as_fraction(x: Binary) -> (f: Fraction)
    requires
        moderate(x),
    ensures
        match f {
            Fraction::Beyond => x@.m * pow2(up(x@.e)) > u64::MAX && x@.e >= 0,
            Fraction::Tiny => 4 * x@.m < pow2(down(x@.e)) && x@.e < 0,
            Fraction::Ratio(n, unit) => {
                &&& n == x@.m * pow2(up(x@.e))
                &&& unit == pow2(down(x@.e))
                &&& n < 0x200000000000000000000000000000
                &&& 0 < unit <= 0x400000000000000000
            },
        },
{
    let m: u128 = x.significand as u128;
    proof {
        lemma2_to64();
        lemma_pow2_pos(up(x@.e));
        lemma_pow2_pos(down(x@.e));
        assert(0 * pow2(up(x@.e)) == 0) by (nonlinear_arith);
    }
    if x.exponent >= 0 {
        if x.significand == 0 {
            Fraction::Ratio(0, 1)
        } else if x.exponent >= 64 {
            proof {
                let unit = pow2(x.exponent as nat);
                if x.exponent > 64 {
                    lemma_pow2_strictly_increases(64, x.exponent as nat);
                }
                assert(m * unit >= unit) by (nonlinear_arith)
                    requires
                        m >= 1,
                        unit >= 0,
                ;
            }
            Fraction::Beyond
        } else {
            let scale: u128 = two_to(x.exponent as u32);
            proof {
                lemma2_to64_rest();
                if x.exponent < 63 {
                    lemma_pow2_strictly_increases(x.exponent as nat, 63);
                }
                assert(m * scale < 0x200000000000000000000000000000) by (nonlinear_arith)
                    requires
                        0 <= m <= 0x20000000000000,
                        0 <= scale <= 0x8000000000000000,
                ;
            }
            Fraction::Ratio(m * scale, 1)
        }
    } else if x.exponent < -70 {
        proof {
            lemma_pow2_strictly_increases(70, down(x@.e));
            lemma_pow2_adds(64, 6);
        }
        Fraction::Tiny
    } else {
        proof {
            lemma_times_one(m as nat);
        }
        Fraction::Ratio(m, two_to((-x.exponent) as u32))
    }
}

/// The integer `n` rounded to `p` significant bits.
pub fn from_integer(n: u64, p: u32) -> (x: Binary)
    requires
        p == DOUBLE || p == SINGLE,
    ensures
        x@ == nearest(n as nat, 1, p as nat),
        n > 0 ==> x.significand > 0,
        x.significand <= 0x20000000000000,
        -160 <= x.exponent <= 160,
{
    proof {
        lemma2_to64_rest();
        lemma2_to64();
        lemma_pow2_pos((p - 1) as nat);
    }
    round_ratio(n as u128, 1, p)
}

/// `x * y`, correctly rounded.
pub fn multiply(x: Binary, y: Binary, p: u32) -> (z: Binary)
    requires
        p == DOUBLE || p == SINGLE,
        x.significand <= 0x20000000000000,
        y.significand <= 0x20000000000000,
        -1000 <= x.exponent <= 1000,
        -1000 <= y.exponent <= 1000,
    ensures
        z@ == product(x@, y@, p as nat),
        x.significand > 0 && y.significand > 0 ==> z.significand > 0,
        z.significand <= 0x20000000000000,
        x.exponent + y.exponent - 160 <= z.exponent <= x.exponent + y.exponent + 160,
{
    let a: u128 = x.significand as u128;
    let b: u128 = y.significand as u128;
    proof {
        lemma2_to64_rest();
        lemma2_to64();
        lemma_pow2_pos((p - 1) as nat);
        assert(a * b <= 0x400000000000000000000000000) by (nonlinear_arith)
            requires
                0 <= a <= 0x20000000000000,
                0 <= b <= 0x20000000000000,
        ;
        assert(a > 0 && b > 0 ==> a * b > 0) by (nonlinear_arith);
    }
    let r = round_ratio(a * b, 1, p);
    Binary { significand: r.significand, exponent: r.exponent + (x.exponent + y.exponent) }
}

/// `x / y`, correctly rounded.
pub fn divide(x: Binary, y: Binary, p: u32) -> (z: Binary)
    requires
        p == DOUBLE || p == SINGLE,
        x.significand <= 0x20000000000000,
        0 < y.significand <= 0x20000000000000,
        -1000 <= x.exponent <= 1000,
        -1000 <= y.exponent <= 1000,
    ensures
        z@ == quotient(x@, y@, p as nat),
        x.significand > 0 ==> z.significand > 0,
        z.significand <= 0x20000000000000,
        x.exponent - y.exponent - 160 <= z.exponent <= x.exponent - y.exponent + 160,
{
    proof {
        lemma2_to64_rest();
        lemma2_to64();
        lemma_pow2_pos((p - 1) as nat);
    }
    let r = round_ratio(x.significand as u128, y.significand as u128, p);
    Binary { significand: r.significand, exponent: r.exponent + (x.exponent - y.exponent) }
}

/// Greatest integer not above `x`, at most the greatest 64-bit number.
pub fn floor_of(x: Binary) -> (n: u64)
    requires
        moderate(x),
    ensures
        n == capped(floor(x@)),
{
    match as_fraction(x) {
        Fraction::Beyond => {
            proof {
                lemma2_to64();
                lemma_div_basics(x@.m * pow2(up(x@.e)) as int);
            }
            u64::MAX
        },
        Fraction::Tiny => {
            proof {
                lemma2_to64();
                lemma_times_one(x@.m);
                lemma_basic_div(x@.m as int, pow2(down(x@.e)) as int);
            }
            0
        },
        Fraction::Ratio(n, unit) => {
            let q: u128 = n / unit;
            if q > u64::MAX as u128 {
                u64::MAX
            } else {
                q as u64
            }
        },
    }
}

/// Least integer not below `x`, at most the greatest 64-bit number.
pub fn ceiling_of(x: Binary) -> (n: u64)
    requires
        moderate(x),
    ensures
        n == capped(ceiling(x@)),
{
    match as_fraction(x) {
        Fraction::Beyond => {
            proof {
                lemma2_to64();
                lemma_div_basics(x@.m * pow2(up(x@.e)) as int);
            }
            u64::MAX
        },
        Fraction::Tiny => {
            proof {
                lemma2_to64();
                lemma_times_one(x@.m);
                lemma_basic_div(x@.m as int, pow2(down(x@.e)) as int);
                lemma_small_mod(x@.m, pow2(down(x@.e)));
            }
            if x.significand == 0 {
                0
            } else {
                1
            }
        },
        Fraction::Ratio(n, unit) => {
            let q: u128 = n / unit;
            let r: u128 = n % unit;
            assert(q <= n) by (nonlinear_arith)
                requires
                    q == n / unit,
                    unit >= 1,
                    n >= 0,
            ;
            let c: u128 = if r == 0 {
                q
            } else {
                q + 1
            };
            if c > u64::MAX as u128 {
                u64::MAX
            } else {
                c as u64
            }
        },
    }
}

/// `x` rounded to an integer, halves to even, at most the greatest 64-bit
/// number.
pub fn even_of(x: Binary) -> (n: u64)
    requires
        moderate(x),
    ensures
        n == capped(to_even(x@)),
{
    match as_fraction(x) {
        Fraction::Beyond => {
            proof {
                lemma2_to64();
                lemma_div_basics(x@.m * pow2(up(x@.e)) as int);
            }
            u64::MAX
        },
        Fraction::Tiny => {
            proof {
                lemma2_to64();
                lemma_times_one(x@.m);
                lemma_basic_div(x@.m as int, pow2(down(x@.e)) as int);
                lemma_small_mod(x@.m, pow2(down(x@.e)));
            }
            0
        },
        Fraction::Ratio(n, unit) => {
            let q: u128 = n / unit;
            let r: u128 = n % unit;
            assert(q <= n) by (nonlinear_arith)
                requires
                    q == n / unit,
                    unit >= 1,
                    n >= 0,
            ;
            let c: u128 = if r < unit - r || (r == unit - r && q % 2 == 0) {
                q
            } else {
                q + 1
            };
            if c > u64::MAX as u128 {
                u64::MAX
            } else {
                c as u64
            }
        },
    }
}

/// `x` rounded to an integer, halves up, at most the greatest 64-bit number.
pub fn half_up_of(x: Binary) -> (n: u64)
    requires
        moderate(x),
    ensures
        n == capped(half_up(x@)),
{
    match as_fraction(x) {
        Fraction::Beyond => {
            proof {
                lemma2_to64();
                let m = (x@.m * pow2(up(x@.e))) as int;
                lemma_fundamental_div_mod_converse(2 * m + 1, 2, m, 1);
            }
            u64::MAX
        },
        Fraction::Tiny => {
            proof {
                lemma2_to64();
                lemma_times_one(x@.m);
                let unit = pow2(down(x@.e)) as int;
                lemma_basic_div(2 * x@.m + unit, 2 * unit);
            }
            0
        },
        Fraction::Ratio(n, unit) => {
            let q: u128 = (2 * n + unit) / (2 * unit);
            if q > u64::MAX as u128 {
                u64::MAX
            } else {
                q as u64
            }
        },
    }
}

/// Whether `x` is greater than `n`.
pub fn is_above(x: Binary, n: u32) -> (above: bool)
    requires
        moderate(x),
    ensures
        above == exceeds(x@, n as nat),
{
    match as_fraction(x) {
        Fraction::Beyond => {
            proof {
                lemma2_to64();
                lemma_times_one(n as nat);
            }
            true
        },
        Fraction::Tiny => {
            proof {
                lemma2_to64();
                let m = x@.m;
                lemma_times_one(m);
                let unit = pow2(down(x@.e)) as int;
                assert(n > 0 ==> n * unit >= unit) by (nonlinear_arith)
                    requires
                        unit >= 0,
                ;
                assert(n == 0 ==> n * unit == 0) by (nonlinear_arith);
            }
            n == 0 && x.significand > 0
        },
        Fraction::Ratio(m, unit) => {
            assert(n * unit <= 0xffffffff * 0x400000000000000000) by (nonlinear_arith)
                requires
                    n <= 0xffffffff,
                    unit <= 0x400000000000000000,
            ;
            m > n as u128 * unit
        },
    }
}

proof fn lemma_root_unique(n: nat, r1: nat, r2: nat)
    requires
        is_root(n, r1),
        is_root(n, r2),
    ensures
        r1 == r2,
{
    assert(r1 == r2) by (nonlinear_arith)
        requires
            r1 * r1 <= n < (r1 + 1) * (r1 + 1),
            r2 * r2 <= n < (r2 + 1) * (r2 + 1),
            r1 >= 0,
            r2 >= 0,
    ;
}

proof fn lemma_root_binade_unique(n: nat, p: nat, k1: nat, k2: nat)
    requires
        p > 0,
        n > 0,
        in_root_binade(n, p, k1),
        in_root_binade(n, p, k2),
    ensures
        k1 == k2,
{
    lemma_root_binade_order(n, p, k1, k2);
    lemma_root_binade_order(n, p, k2, k1);
}

proof fn lemma_root_binade_order(n: nat, p: nat, k1: nat, k2: nat)
    requires
        p > 0,
        n > 0,
        in_root_binade(n, p, k1),
        in_root_binade(n, p, k2),
    ensures
        k2 <= k1,
{
    if k1 < k2 {
        let a = pow2(2 * k1) as int;
        let b = pow2(2 * k2) as int;
        let lo = pow2((2 * p - 2) as nat) as int;
        let hi = pow2(2 * p) as int;
        lemma_pow2_adds(2 * k1, (2 * k2 - 2 * k1) as nat);
        let step = pow2((2 * k2 - 2 * k1) as nat) as int;
        if 2 < 2 * k2 - 2 * k1 {
            lemma_pow2_strictly_increases(2, (2 * k2 - 2 * k1) as nat);
        }
        lemma2_to64();
        lemma_pow2_adds((2 * p - 2) as nat, 2);
        assert(hi == 4 * lo);
        let m = n as int;
        assert(m * b >= 4 * (m * a)) by (nonlinear_arith)
            requires
                b == a * step,
                step >= 4,
                m > 0,
                a >= 0,
        ;
    }
}

/// Integer square root of a number below `2^106`.
fn integer_root(n: u128) -> (r: u128)
    requires
        n < 0x400000000000000000000000000,
    ensures
        is_root(n as nat, r as nat),
        r < 0x20000000000000,
{
    let mut lo: u128 = 0;
    let mut hi: u128 = 0x20000000000000;
    while hi - lo > 1
        invariant
            n < 0x400000000000000000000000000,
            lo < hi <= 0x20000000000000,
            lo * lo <= n < hi * hi,
        decreases hi - lo,
    {
        let mid: u128 = lo + (hi - lo) / 2;
        assert(mid * mid < 0x400000000000000000000000000) by (nonlinear_arith)
            requires
                0 <= mid < 0x20000000000000,
        ;
        if mid * mid <= n {
            lo = mid;
        } else {
            hi = mid;
        }
    }
    assert(hi == lo + 1);
    lo
}

/// Square root of `n`, rounded to `p` significant bits.
fn round_root(n: u64, p: u32) -> (x: Binary)
    requires
        p == DOUBLE,
        0 < n <= 0x40000000000000,
    ensures
        x@ == nearest_root(n as nat, p as nat),
        0 < x.significand <= 0x20000000000000,
        -60 <= x.exponent <= 60,
{
    let lo: u128 = 0x100000000000000000000000000;
    proof {
        lemma2_to64_rest();
        lemma2_to64();
        lemma_pow2_adds(52, 52);
        lemma_pow2_adds(53, 53);
        lemma_times_one(n as nat);
        assert(pow2(104) == lo);
        assert(pow2(106) == 4 * lo);
    }
    let mut a: u128 = n as u128;
    let mut k: u32 = 0;
    while a < lo
        invariant
            lo == 0x100000000000000000000000000,
            0 < n <= 0x40000000000000,
            a == n as nat * pow2(2 * k as nat),
            a >= pow2(2 * k as nat),
            a < 4 * lo,
            k <= 60,
        decreases 200 - k,
    {
        proof {
            let e = 2 * k as nat;
            lemma_exponent_below_120(e, a as int);
            lemma_double(n as nat, e);
            lemma_double(n as nat, e + 1);
            lemma_pow2_unfold(e + 1);
            lemma_pow2_unfold(e + 2);
        }
        a = a * 4;
        k = k + 1;
    }
    let r: u128 = integer_root(a);
    proof {
        lemma_root_binade_unique(n as nat, p as nat, k as nat, root_binade(n as nat, p as nat));
        lemma_root_unique(a as nat, r as nat, root(a as nat));
        assert(r >= 0x10000000000000) by (nonlinear_arith)
            requires
                a < (r + 1) * (r + 1),
                a >= 0x100000000000000000000000000,
                r >= 0,
        ;
        assert(r * r < 0x400000000000000000000000000) by (nonlinear_arith)
            requires
                0 <= r < 0x20000000000000,
        ;
    }
    let m: u128 = if a - r * r > r {
        r + 1
    } else {
        r
    };
    Binary { significand: m as u64, exponent: -(k as i32) }
}

/// Correctly rounded square root of a positive double.
pub fn root_of(x: Binary) -> (z: Binary)
    requires
        0 < x.significand <= 0x20000000000000,
        -100_000 <= x.exponent <= 100_000,
    ensures
        z@ == square_root(x@, DOUBLE as nat),
        0 < z.significand <= 0x20000000000000,
        2 * z.exponent <= x.exponent + 120,
        2 * z.exponent >= x.exponent - 121,
{
    let above: u32 = (x.exponent + 100_000) as u32;
    let half: i32 = (above / 2) as i32 - 50_000;
    if above % 2 == 0 {
        let r = round_root(x.significand, DOUBLE);
        Binary { significand: r.significand, exponent: r.exponent + half }
    } else {
        let r = round_root(2 * x.significand, DOUBLE);
        Binary { significand: r.significand, exponent: r.exponent + half }
    }
}

/// `num / den` is at least `m * 2^e`.
pub open spec fn ratio_reaches(num: nat, den: nat, m: nat, e: int) -> bool {
    num * pow2(down(e)) >= m * (den * pow2(up(e)))
}

/// `x` is at least `m * 2^e`.
pub open spec fn reaches(x: Bin, m: nat, e: int) -> bool {
    x.m * pow2(up(x.e)) * pow2(down(e)) >= m * (pow2(up(e)) * pow2(down(x.e)))
}

pub proof fn lemma_binade_exists(num: nat, den: nat, p: nat)
    requires
        p > 0,
        den > 0,
        num > 0,
    ensures
        in_binade(num, den, p, binade(num, den, p)),
{
    let lo = pow2((p - 1) as nat);
    lemma_pow2_pos((p - 1) as nat);
    lemma_pow2_unfold(p);
    lemma2_to64();
    lemma_times_one(num);
    lemma_times_one(den);
    if num < lo * den {
        let e = lemma_binade_below(num, den, p, 0);
        assert(in_binade(num, den, p, e));
    } else {
        let e = lemma_binade_above(num, den, p, 0);
        assert(in_binade(num, den, p, e));
    }
}

proof fn lemma_binade_below(num: nat, den: nat, p: nat, k: nat) -> (e: int)
    requires
        p > 0,
        den > 0,
        num > 0,
        num * pow2(k) < pow2((p - 1) as nat) * den,
    ensures
        in_binade(num, den, p, e),
    decreases pow2((p - 1) as nat) * den - num * pow2(k),
{
    let lo = pow2((p - 1) as nat);
    lemma_double(num, k);
    lemma_pow2_unfold(p);
    lemma_pow2_pos(k);
    lemma2_to64();
    assert(num * pow2(k) > 0) by (nonlinear_arith)
        requires
            num > 0,
            pow2(k) > 0,
    ;
    lemma_times_one(den);
    assert(pow2(p) * den == 2 * (lo * den)) by (nonlinear_arith)
        requires
            pow2(p) == 2 * lo,
    ;
    if num * pow2(k + 1) < lo * den {
        lemma_binade_below(num, den, p, k + 1)
    } else {
        let e = -(k as int) - 1;
        assert(down(e) == k + 1);
        e
    }
}

proof fn lemma_binade_above(num: nat, den: nat, p: nat, k: nat) -> (e: int)
    requires
        p > 0,
        den > 0,
        num > 0,
        pow2((p - 1) as nat) * (den * pow2(k)) <= num,
    ensures
        in_binade(num, den, p, e),
    decreases num - pow2((p - 1) as nat) * (den * pow2(k)),
{
    let lo = pow2((p - 1) as nat);
    lemma_double(den, k);
    lemma_pow2_unfold(p);
    lemma_pow2_pos(k);
    lemma_pow2_pos((p - 1) as nat);
    lemma2_to64();
    let unit = den * pow2(k);
    assert(unit > 0) by (nonlinear_arith)
        requires
            unit == den * pow2(k),
            den > 0,
            pow2(k) > 0,
    ;
    assert(lo * (2 * unit) == 2 * (lo * unit) && lo * unit > 0) by (nonlinear_arith)
        requires
            lo > 0,
            unit > 0,
    ;
    assert(pow2(p) * unit == 2 * (lo * unit)) by (nonlinear_arith)
        requires
            pow2(p) == 2 * lo,
    ;
    lemma_times_one(num);
    if num < pow2(p) * unit {
        assert(up(k as int) == k);
        k as int
    } else {
        lemma_binade_above(num, den, p, k + 1)
    }
}

/// Rounding does not fall below a representable lower bound.
pub proof fn lemma_nearest_reaches(num: nat, den: nat, p: nat, m: nat, e: int)
    requires
        p > 0,
        den > 0,
        num > 0,
        m <= pow2(p),
        ratio_reaches(num, den, m, e),
    ensures
        reaches(nearest(num, den, p), m, e),
{
    let x = nearest(num, den, p);
    let lo = pow2((p - 1) as nat) as int;
    let a = (num * pow2(down(x.e))) as int;
    let b = (den * pow2(up(x.e))) as int;
    let uq = pow2(up(x.e)) as int;
    let dq = pow2(down(x.e)) as int;
    let ut = pow2(up(e)) as int;
    let dt = pow2(down(e)) as int;
    let n = num as int;
    let d = den as int;
    let mm = m as int;
    let xm = x.m as int;
    lemma_binade_exists(num, den, p);
    lemma_pow2_pos(up(x.e));
    lemma_pow2_pos(down(x.e));
    lemma_pow2_pos(up(e));
    lemma_pow2_pos(down(e));
    lemma_pow2_pos((p - 1) as nat);
    lemma_pow2_unfold(p);
    assert(b > 0) by (nonlinear_arith)
        requires
            b == d * uq,
            d > 0,
            uq > 0,
    ;
    lemma_fundamental_div_mod(a, b);
    let q = a / b;
    assert(q >= lo) by (nonlinear_arith)
        requires
            lo * b <= a,
            a == b * q + a % b,
            a % b < b,
            b > 0,
    ;
    assert(xm >= q);
    if e >= x.e {
        let s = (e - x.e) as nat;
        let ts = pow2(s) as int;
        lemma_pow2_pos(s);
        lemma_pow2_adds(s + up(x.e), down(e));
        lemma_pow2_adds(s, up(x.e));
        lemma_pow2_adds(up(e), down(x.e));
        assert(s + up(x.e) + down(e) == up(e) + down(x.e));
        assert(ts * uq * dt == ut * dq);
        assert(n * dt >= mm * (d * ut));
        assert(a >= mm * ts * b) by {
            assert(a * dt == n * dt * dq) by (nonlinear_arith)
                requires
                    a == n * dq,
            ;
            assert(n * dt * dq >= mm * (d * ut) * dq) by (nonlinear_arith)
                requires
                    n * dt >= mm * (d * ut),
                    dq > 0,
            ;
            assert(mm * (d * ut) * dq == mm * d * (ut * dq)) by (nonlinear_arith);
            assert(mm * d * (ts * uq * dt) == mm * ts * b * dt) by (nonlinear_arith)
                requires
                    b == d * uq,
            ;
            let c = mm * ts * b;
            assert(a >= c) by (nonlinear_arith)
                requires
                    a * dt >= c * dt,
                    dt > 0,
            ;
        }
        let t = mm * ts;
        assert(q >= t) by (nonlinear_arith)
            requires
                a >= t * b,
                a == b * q + a % b,
                a % b < b,
                b > 0,
        ;
        assert(xm * uq * dt >= mm * (ut * dq)) by {
            assert(xm * uq * dt >= t * uq * dt) by (nonlinear_arith)
                requires
                    xm >= t,
                    uq > 0,
                    dt > 0,
            ;
            assert(t * uq * dt == mm * (ts * uq * dt)) by (nonlinear_arith)
                requires
                    t == mm * ts,
            ;
        }
    } else {
        lemma_pow2_adds(up(x.e), down(e));
        lemma_pow2_adds(up(e), down(x.e));
        lemma_pow2_unfold(up(e) + down(x.e) + 1);
        if up(e) + down(x.e) + 1 < up(x.e) + down(e) {
            lemma_pow2_strictly_increases(up(e) + down(x.e) + 1, up(x.e) + down(e));
        }
        let w = uq * dt;
        let v = ut * dq;
        assert(w >= 2 * v);
        assert(xm * uq * dt == xm * w) by (nonlinear_arith)
            requires
                w == uq * dt,
        ;
        assert(v > 0) by (nonlinear_arith)
            requires
                v == ut * dq,
                ut > 0,
                dq > 0,
        ;
        assert(xm * w >= mm * v) by (nonlinear_arith)
            requires
                xm >= lo,
                mm <= 2 * lo,
                w >= 2 * v,
                v > 0,
                lo > 0,
        ;
    }
}

pub proof fn lemma_cancel(a: int, b: int, c: int)
    requires
        c > 0,
    ensures
        (a * c >= b * c) == (a >= b),
{
    assert((a * c >= b * c) == (a >= b)) by (nonlinear_arith)
        requires
            c > 0,
    ;
}

/// Two values compare as their multiples by a large power of two.
pub proof fn lemma_common_scale(x: Bin, m: nat, e: int, k: nat)
    requires
        k >= down(x.e) + down(e),
    ensures
        reaches(x, m, e) == (x.m * pow2((x.e + k) as nat) >= m * pow2((e + k) as nat)),
{
    let spare = (k - down(x.e) - down(e)) as nat;
    let c = pow2(spare) as int;
    let left = pow2(up(x.e)) * pow2(down(e));
    let right = pow2(up(e)) * pow2(down(x.e));
    lemma_pow2_pos(spare);
    lemma_pow2_adds(up(x.e), down(e));
    lemma_pow2_adds(up(x.e) + down(e), spare);
    lemma_pow2_adds(up(e), down(x.e));
    lemma_pow2_adds(up(e) + down(x.e), spare);
    assert(up(x.e) + down(e) + spare == (x.e + k) as nat);
    assert(up(e) + down(x.e) + spare == (e + k) as nat);
    let xm = x.m as int;
    let mm = m as int;
    assert(xm * pow2(up(x.e)) * pow2(down(e)) == xm * left) by (nonlinear_arith)
        requires
            left == pow2(up(x.e)) * pow2(down(e)),
    ;
    lemma_cancel(xm * left, mm * right, c);
    assert(xm * left * c == xm * (left * c)) by (nonlinear_arith);
    assert(mm * right * c == mm * (right * c)) by (nonlinear_arith);
}

/// `x` is at least `y`.
pub open spec fn not_below(x: Bin, y: Bin) -> bool {
    reaches(x, y.m, y.e)
}

pub proof fn lemma_not_below_transitive(x: Bin, y: Bin, z: Bin)
    requires
        not_below(x, y),
        not_below(y, z),
    ensures
        not_below(x, z),
{
    let k = down(x.e) + down(y.e) + down(z.e);
    lemma_common_scale(x, y.m, y.e, k);
    lemma_common_scale(y, z.m, z.e, k);
    lemma_common_scale(x, z.m, z.e, k);
}

pub proof fn lemma_shift_reaches(x: Bin, m: nat, e: int, n: int)
    requires
        reaches(x, m, e),
    ensures
        reaches(shifted(x, n), m, e + n),
{
    let y = shifted(x, n);
    let k = down(y.e) + down(e + n) + down(x.e) + down(e) + down(n) + up(n);
    lemma_common_scale(y, m, e + n, k);
    lemma_common_scale(x, m, e, (k + n) as nat);
}

/// Rounding an integer keeps the order.
pub proof fn lemma_integers_in_order(a: nat, b: nat, p: nat)
    requires
        p > 0,
        a <= b,
        a > 0,
    ensures
        not_below(nearest(b, 1, p), nearest(a, 1, p)),
{
    let x = nearest(a, 1, p);
    let y = nearest(b, 1, p);
    lemma_binade_exists(a, 1, p);
    lemma_binade_exists(b, 1, p);
    lemma_pow2_pos(down(x.e));
    lemma_pow2_pos(down(y.e));
    lemma_pow2_pos(up(x.e));
    lemma_pow2_pos(up(y.e));
    let lo = pow2((p - 1) as nat) as int;
    lemma_pow2_pos((p - 1) as nat);
    lemma_pow2_unfold(p);
    let da = pow2(down(x.e)) as int;
    assert(b * da >= a * da) by (nonlinear_arith)
        requires
            b >= a,
            da > 0,
    ;
    lemma_binade_order(b, 1, p, y.e, x.e);
    let k = down(x.e) + down(y.e);
    lemma_common_scale(y, x.m, x.e, k);
    let a1 = (a * pow2(down(x.e))) as int;
    let b1 = (1 * pow2(up(x.e))) as int;
    let a2 = (b * pow2(down(y.e))) as int;
    let b2 = (1 * pow2(up(y.e))) as int;
    lemma_fundamental_div_mod(a1, b1);
    lemma_fundamental_div_mod(a2, b2);
    if x.e == y.e {
        lemma_half_even_monotone(a1 as nat, a2 as nat, b1 as nat);
        let w = pow2((x.e + k) as nat) as int;
        assert(y.m * w >= x.m * w) by (nonlinear_arith)
            requires
                y.m >= x.m,
                w >= 0,
        ;
    } else {
        let q = a2 / b2;
        assert(q >= lo) by (nonlinear_arith)
            requires
                lo * b2 <= a2,
                a2 == b2 * q + a2 % b2,
                a2 % b2 < b2,
                b2 > 0,
        ;
        let r = a1 / b1;
        assert(r < 2 * lo) by (nonlinear_arith)
            requires
                a1 < 2 * lo * b1,
                a1 == b1 * r + a1 % b1,
                0 <= a1 % b1,
                b1 > 0,
        ;
        assert(x.m <= 2 * lo && y.m >= lo);
        let v = pow2((x.e + k) as nat) as int;
        let w = pow2((y.e + k) as nat) as int;
        lemma_pow2_pos((x.e + k) as nat);
        lemma_pow2_unfold((x.e + k + 1) as nat);
        if x.e + k + 1 < y.e + k {
            lemma_pow2_strictly_increases((x.e + k + 1) as nat, (y.e + k) as nat);
        }
        assert(w >= 2 * v);
        assert(y.m * w >= x.m * v) by (nonlinear_arith)
            requires
                y.m >= lo,
                x.m <= 2 * lo,
                w >= 2 * v,
                v > 0,
                lo > 0,
        ;
    }
}

proof fn lemma_half_even_monotone(a1: nat, a2: nat, b: nat)
    requires
        a1 <= a2,
        b > 0,
    ensures
        half_even(a1, b) <= half_even(a2, b),
{
    let q1 = a1 as int / b as int;
    let q2 = a2 as int / b as int;
    let r1 = a1 as int % b as int;
    let r2 = a2 as int % b as int;
    lemma_fundamental_div_mod(a1 as int, b as int);
    lemma_fundamental_div_mod(a2 as int, b as int);
    lemma_div_is_ordered(a1 as int, a2 as int, b as int);
    if q1 == q2 {
        assert(r1 <= r2);
    }
}

proof fn lemma_reaches_one(x: Bin)
    ensures
        reaches(x, 1, 0) == (x.m * pow2(up(x.e)) >= pow2(down(x.e))),
{
    lemma_times_one(x.m * pow2(up(x.e)));
    let unit = pow2(down(x.e)) as int;
    assert(pow2(0) * unit == unit) by (nonlinear_arith)
        requires
            pow2(0) == 1,
    ;
}

/// A positive integer stays at least one.
pub proof fn lemma_integer_reaches_one(n: nat, p: nat)
    requires
        p > 0,
        n > 0,
    ensures
        reaches(nearest(n, 1, p), 1, 0),
{
    lemma_times_one(n);
    lemma_times_one(1);
    lemma_pow2_pos(p);
    lemma_nearest_reaches(n, 1, p, 1, 0);
}

/// A quotient of a value by one that is not greater is at least one.
pub proof fn lemma_quotient_reaches_one(x: Bin, y: Bin, p: nat)
    requires
        p > 0,
        x.m > 0,
        y.m > 0,
        not_below(x, y),
    ensures
        reaches(quotient(x, y, p), 1, 0),
{
    let t = y.e - x.e;
    let k = down(x.e) + down(y.e) + down(t) + up(t);
    lemma_common_scale(x, y.m, y.e, k);
    let base = (x.e + k - down(t)) as nat;
    lemma_pow2_pos(base);
    lemma_pow2_adds(base, down(t));
    lemma_pow2_adds(base, up(t));
    assert(base + down(t) == (x.e + k) as nat);
    assert(base + up(t) == (y.e + k) as nat);
    let c = pow2(base) as int;
    let xm = x.m as int;
    let ym = y.m as int;
    let dn = pow2(down(t)) as int;
    let u = pow2(up(t)) as int;
    assert(xm * (c * dn) == xm * dn * c) by (nonlinear_arith);
    assert(ym * (c * u) == ym * u * c) by (nonlinear_arith);
    lemma_cancel(xm * dn, ym * u, c);
    lemma_pow2_pos(p);
    lemma_nearest_reaches(x.m, y.m, p, 1, t);
    lemma_shift_reaches(nearest(x.m, y.m, p), 1, t, x.e - y.e);
}

/// A product with a factor that is at least one is not below the other factor.
pub proof fn lemma_product_not_below(x: Bin, y: Bin, p: nat)
    requires
        p > 0,
        x.m > 0,
        0 < y.m <= pow2(p),
        reaches(x, 1, 0),
    ensures
        not_below(product(x, y, p), y),
{
    let xm = x.m as int;
    let ym = y.m as int;
    lemma_reaches_one(x);
    let u = pow2(up(x.e)) as int;
    let dn = pow2(down(x.e)) as int;
    assert(xm * u >= dn);
    assert(xm * ym * u >= ym * dn) by (nonlinear_arith)
        requires
            xm * u >= dn,
            ym > 0,
    ;
    assert(xm * ym > 0) by (nonlinear_arith)
        requires
            xm > 0,
            ym > 0,
    ;
    assert(up(-x.e) == down(x.e) && down(-x.e) == up(x.e));
    lemma_nearest_reaches(x.m * y.m, 1, p, y.m, -x.e);
    lemma_shift_reaches(nearest(x.m * y.m, 1, p), y.m, -x.e, x.e + y.e);
}

/// A rounded positive ratio keeps a significand between `2^(p - 1)` and `2^p`.
pub proof fn lemma_nearest_parts(num: nat, den: nat, p: nat)
    requires
        p > 0,
        num > 0,
        den > 0,
    ensures
        pow2((p - 1) as nat) <= nearest(num, den, p).m <= pow2(p),
        nearest(num, den, p).m > 0,
{
    let x = nearest(num, den, p);
    lemma_binade_exists(num, den, p);
    lemma_pow2_pos(up(x.e));
    lemma_pow2_pos((p - 1) as nat);
    lemma_pow2_unfold(p);
    let a = (num * pow2(down(x.e))) as int;
    let b = (den * pow2(up(x.e))) as int;
    let lo = pow2((p - 1) as nat) as int;
    assert(b > 0) by (nonlinear_arith)
        requires
            b == den * pow2(up(x.e)),
            den > 0,
            pow2(up(x.e)) > 0,
    ;
    lemma_fundamental_div_mod(a, b);
    let q = a / b;
    assert(lo <= q < 2 * lo) by (nonlinear_arith)
        requires
            lo * b <= a,
            a < 2 * lo * b,
            a == b * q + a % b,
            0 <= a % b < b,
    ;
}

/// A positive integer as a rounded value has a positive significand.
pub proof fn lemma_integer_parts(n: nat, p: nat)
    requires
        p > 0,
        n > 0,
    ensures
        0 < nearest(n, 1, p).m <= pow2(p),
{
    lemma_nearest_parts(n, 1, p);
}

/// A product of positive values is positive.
pub proof fn lemma_product_positive(x: Bin, y: Bin, p: nat)
    requires
        p > 0,
        x.m > 0,
        y.m > 0,
    ensures
        product(x, y, p).m > 0,
{
    assert(x.m * y.m > 0) by (nonlinear_arith)
        requires
            x.m > 0,
            y.m > 0,
    ;
    lemma_nearest_parts(x.m * y.m, 1, p);
}

/// A quotient of positive values is positive.
pub proof fn lemma_quotient_positive(x: Bin, y: Bin, p: nat)
    requires
        p > 0,
        x.m > 0,
        y.m > 0,
    ensures
        0 < quotient(x, y, p).m <= pow2(p),
{
    lemma_nearest_parts(x.m, y.m, p);
}

/// A square root of a positive value with `p` significant bits is positive.
pub proof fn lemma_root_positive(x: Bin, p: nat)
    requires
        p > 1,
        0 < x.m <= pow2(p),
    ensures
        square_root(x, p).m > 0,
{
    let n = if x.e % 2 == 0 {
        x.m
    } else {
        2 * x.m
    };
    lemma_pow2_adds(p, 1);
    lemma2_to64();
    lemma_times_one(n);
    lemma_pow2_strictly_increases(p + 1, 2 * p);
    lemma_root_binade_exists(n, p, 0);
    let k = root_binade(n, p);
    let v = n * pow2(2 * k);
    lemma_pow2_pos((2 * p - 2) as nat);
    lemma_root_exists(v, 0);
    let r = root(v);
    assert(v >= 1);
    assert(r >= 1) by (nonlinear_arith)
        requires
            v < (r + 1) * (r + 1),
            v >= 1,
            r >= 0,
    ;
}

pub proof fn lemma_root_binade_exists(n: nat, p: nat, k: nat)
    requires
        p > 1,
        n > 0,
        n * pow2(2 * k) < pow2(2 * p),
    ensures
        in_root_binade(n, p, root_binade(n, p)),
    decreases pow2(2 * p) - n * pow2(2 * k),
{
    if pow2((2 * p - 2) as nat) <= n * pow2(2 * k) {
        assert(in_root_binade(n, p, k));
    } else {
        lemma_double(n, 2 * k);
        lemma_double(n, 2 * k + 1);
        lemma_pow2_pos(2 * k);
        assert(n * pow2(2 * k) > 0) by (nonlinear_arith)
            requires
                n > 0,
                pow2(2 * k) > 0,
        ;
        lemma_pow2_adds((2 * p - 2) as nat, 2);
        lemma2_to64();
        assert(2 * (k + 1) == 2 * k + 1 + 1);
        lemma_root_binade_exists(n, p, k + 1);
    }
}

pub proof fn lemma_root_exists(n: nat, r: nat)
    requires
        r * r <= n,
    ensures
        is_root(n, root(n)),
    decreases n - r,
{
    if n < (r + 1) * (r + 1) {
        assert(is_root(n, r));
    } else {
        assert(r < n) by (nonlinear_arith)
            requires
                (r + 1) * (r + 1) <= n,
                r >= 0,
        ;
        lemma_root_exists(n, r + 1);
    }
}

/// A positive value is covered by a positive integer.
pub proof fn lemma_ceiling_positive(x: Bin)
    requires
        x.m > 0,
    ensures
        ceiling(x) > 0,
{
    let n = (x.m * pow2(up(x.e))) as int;
    let unit = pow2(down(x.e)) as int;
    lemma_pow2_pos(up(x.e));
    lemma_pow2_pos(down(x.e));
    assert(n > 0) by (nonlinear_arith)
        requires
            n == x.m * pow2(up(x.e)),
            x.m > 0,
            pow2(up(x.e)) > 0,
    ;
    lemma_fundamental_div_mod(n, unit);
    let q = n / unit;
    assert(n % unit == 0 ==> q > 0) by (nonlinear_arith)
        requires
            n == unit * q + n % unit,
            n > 0,
            unit > 0,
    ;
}

/// Rounding a value of at least one to an integer gives a positive integer.
pub proof fn lemma_one_rounds_to_positive(x: Bin)
    requires
        reaches(x, 1, 0),
    ensures
        to_even(x) > 0,
        floor(x) > 0,
        ceiling(x) > 0,
{
    lemma_reaches_one(x);
    lemma_pow2_pos(down(x.e));
    let n = (x.m * pow2(up(x.e))) as int;
    let unit = pow2(down(x.e)) as int;
    lemma_fundamental_div_mod(n, unit);
    let q = n / unit;
    assert(q >= 1) by (nonlinear_arith)
        requires
            n >= unit,
            n == unit * q + n % unit,
            n % unit < unit,
            unit > 0,
    ;
}

/// A 32-bit integer as a single has an exponent between -23 and 8.
pub proof fn lemma_single_exponent(n: nat)
    requires
        0 < n <= u32::MAX,
    ensures
        -23 <= nearest(n, 1, 24).e <= 8,
        0x80_0000 <= nearest(n, 1, 24).m <= 0x100_0000,
{
    let x = nearest(n, 1, 24);
    lemma_nearest_parts(n, 1, 24);
    lemma_binade_exists(n, 1, 24);
    lemma2_to64();
    lemma2_to64_rest();
    lemma_times_one(n);
    lemma_times_one(1);
    let d = pow2(down(x.e)) as int;
    let u = pow2(up(x.e)) as int;
    lemma_pow2_pos(down(x.e));
    lemma_pow2_pos(up(x.e));
    if x.e < -23 {
        if 24 < down(x.e) {
            lemma_pow2_strictly_increases(24, down(x.e));
        }
        assert(n * d >= d) by (nonlinear_arith)
            requires
                n >= 1,
                d > 0,
        ;
    }
    if x.e > 8 {
        if 9 < up(x.e) {
            lemma_pow2_strictly_increases(9, up(x.e));
        }
    }
}

/// A significand of a normal single-precision number, or the next power of two.
pub open spec fn is_single(m: nat) -> bool {
    0x80_0000 <= m <= 0x100_0000
}

proof fn lemma_single_ratio(num: nat, den: nat, low: nat, high: nat)
    requires
        den > 0,
        num * pow2(low) >= den * pow2(24),
        num < den * pow2(high),
        low <= 64,
        high <= 64,
    ensures
        -low <= nearest(num, den, 24).e <= high - 23 + 1 || num == 0,
        num > 0 ==> is_single(nearest(num, den, 24).m),
{
    if num > 0 {
        let x = nearest(num, den, 24);
        lemma_nearest_parts(num, den, 24);
        lemma_binade_exists(num, den, 24);
        lemma2_to64();
        lemma2_to64_rest();
        let e = x.e;
        lemma_pow2_pos(up(e));
        lemma_pow2_pos(down(e));
        lemma_times_one(num);
        lemma_times_one(den);
        if e < -low {
            lemma_pow2_strictly_increases(low, down(e));
            assert(num * pow2(down(e)) >= num * pow2(low)) by (nonlinear_arith)
                requires
                    pow2(down(e)) > pow2(low),
                    num >= 0,
            ;
            assert(pow2(24) * (den * pow2(0)) == den * pow2(24)) by (nonlinear_arith)
                requires
                    den * pow2(0) == den,
            ;
        }
        if e > high - 22 {
            lemma_above(num, den, high, e);
        }
    }
}

proof fn lemma_above(num: nat, den: nat, high: nat, e: int)
    requires
        den > 0,
        pow2(23) * (den * pow2(up(e))) <= num * pow2(down(e)),
        e > high - 23,
    ensures
        num >= den * pow2(high),
{
    lemma_pow2_pos(up(e));
    lemma_pow2_pos(down(e));
    lemma_pow2_pos(high);
    if e >= 0 {
        lemma_times_one(num);
        lemma_pow2_adds(23, up(e));
        if high < 23 + up(e) {
            lemma_pow2_strictly_increases(high, 23 + up(e));
        }
        assert(num >= den * pow2(high)) by (nonlinear_arith)
            requires
                pow2(23) * (den * pow2(up(e))) <= num,
                pow2(23) * pow2(up(e)) == pow2(23 + up(e)),
                pow2(23 + up(e)) >= pow2(high),
                den > 0,
        ;
    } else {
        lemma_times_one(den);
        if high <= 23 - down(e) {
            lemma_pow2_adds(down(e), high);
            let n = down(e) + high;
            if n < 23 {
                lemma_pow2_strictly_increases(n, 23);
            }
            assert(num >= den * pow2(high)) by (nonlinear_arith)
                requires
                    pow2(23) * den <= num * pow2(down(e)),
                    pow2(down(e)) * pow2(high) == pow2(n),
                    pow2(n) <= pow2(23),
                    den > 0,
                    pow2(down(e)) > 0,
                    pow2(high) > 0,
            ;
        }
    }
}

/// A quotient of singles is a single, near the difference of the exponents.
pub proof fn lemma_single_quotient(x: Bin, y: Bin)
    requires
        is_single(x.m),
        is_single(y.m),
    ensures
        is_single(quotient(x, y, 24).m),
        -25 <= quotient(x, y, 24).e - (x.e - y.e) <= -20,
{
    lemma2_to64();
    lemma2_to64_rest();
    lemma_single_ratio(x.m, y.m, 25, 2);
}

/// A product of singles is a single, near the sum of the exponents.
pub proof fn lemma_single_product(x: Bin, y: Bin)
    requires
        is_single(x.m),
        is_single(y.m),
    ensures
        is_single(product(x, y, 24).m),
        0 <= product(x, y, 24).e - (x.e + y.e) <= 27,
{
    lemma2_to64();
    lemma2_to64_rest();
    assert(0x4000_0000_0000 <= x.m * y.m <= 0x1_0000_0000_0000) by (nonlinear_arith)
        requires
            0x80_0000 <= x.m <= 0x100_0000,
            0x80_0000 <= y.m <= 0x100_0000,
    ;
    lemma_times_one(x.m * y.m);
    lemma_single_ratio(x.m * y.m, 1, 0, 49);
}

/// Integers of at most 24 bits are single-precision numbers.
pub proof fn lemma_small_integer_exact(n: nat)
    requires
        n <= 0x100_0000,
    ensures
        floor(nearest(n, 1, 24)) == n,
{
    lemma2_to64();
    lemma2_to64_rest();
    lemma_times_one(n);
    lemma_times_one(1);
    if n > 0 {
        let x = nearest(n, 1, 24);
        lemma_single_exponent(n);
        lemma_binade_exists(n, 1, 24);
        let u = pow2(up(x.e));
        let d = pow2(down(x.e));
        lemma_pow2_pos(down(x.e));
        assert(1 * u == u);
        if x.e > 0 {
            if x.e > 1 {
                lemma_pow2_strictly_increases(1, up(x.e));
            }
            assert(pow2(23) * (1 * u) == 0x80_0000 * u) by (nonlinear_arith)
                requires
                    pow2(23) == 0x80_0000,
            ;
            assert(x.e == 1 && n == 0x100_0000);
            assert(x.m == 0x80_0000);
            assert(floor(x) == x.m * 2 / 1);
        } else {
            let a = n * d;
            assert(1 * pow2(0) == 1nat);
            assert(x.m == a) by {
                assert(a / 1 == a && a % 1 == 0);
            }
            lemma_times_one(x.m);
            lemma_div_multiples_vanish(n as int, d as int);
            assert(n * d == d * n) by (nonlinear_arith);
            assert(x.m * u == x.m);
            assert(floor(x) == (d * n) / d);
        }
    } else {
        assert(nearest(0, 1, 24) == (Bin { m: 0, e: 0 }));
        assert(floor(Bin { m: 0, e: 0 }) == 0 * 1 / 1);
    }
}

/// Halves to even, of a fraction written with twice the numbers.
proof fn lemma_half_even_doubles(a: nat, b: nat)
    requires
        b > 0,
    ensures
        half_even(2 * a, 2 * b) == half_even(a, b),
{
    let q = a as int / b as int;
    let r = a as int % b as int;
    lemma_fundamental_div_mod(a as int, b as int);
    assert(2 * a == q * (2 * b) + 2 * r) by (nonlinear_arith)
        requires
            a == b * q + r,
    ;
    lemma_fundamental_div_mod_converse((2 * a) as int, (2 * b) as int, q, 2 * r);
}

/// A doubled integer rounds to the double of what the integer rounds to.
#[verifier::rlimit(40)]
pub proof fn lemma_nearest_doubles(n: nat, p: nat)
    requires
        n > 0,
        p > 0,
    ensures
        nearest(2 * n, 1, p) == shifted(nearest(n, 1, p), 1),
{
    let e = binade(n, 1, p);
    lemma_binade_exists(n, 1, p);
    lemma_binade_exists(2 * n, 1, p);
    let u = pow2(up(e));
    let d = pow2(down(e));
    let m = n as int;
    lemma_pow2_pos(up(e));
    if e >= 0 {
        lemma_pow2_unfold(up(e + 1));
        assert(pow2(up(e + 1)) == 2 * u);
        assert(in_binade(2 * n, 1, p, e + 1)) by {
            let low = pow2((p - 1) as nat) as int;
            let high = pow2(p) as int;
            let w = u as int;
            assert(low * (2 * w) == 2 * (low * w) && high * (2 * w) == 2 * (high * w))
                by (nonlinear_arith);
            assert(2 * m * d == 2 * (m * d)) by (nonlinear_arith);
        }
        lemma_binade_unique(2 * n, 1, p, e + 1, binade(2 * n, 1, p));
        lemma2_to64();
        lemma_half_even_doubles(n * d, 1 * u);
        assert((2 * n) * d == 2 * (n * d)) by (nonlinear_arith);
    } else {
        lemma_pow2_unfold(down(e));
        let half = pow2(down(e + 1));
        assert(d == 2 * half);
        assert((2 * n) * half == n * d) by (nonlinear_arith)
            requires
                d == 2 * half,
        ;
        assert(in_binade(2 * n, 1, p, e + 1));
        lemma_binade_unique(2 * n, 1, p, e + 1, binade(2 * n, 1, p));
    }
}

/// A product with a doubled integer is the double of the product.
pub proof fn lemma_product_doubles(x: Bin, n: nat, p: nat)
    requires
        n > 0,
        p > 0,
    ensures
        product(x, nearest(2 * n, 1, p), p) == shifted(product(x, nearest(n, 1, p), p), 1),
{
    lemma_nearest_doubles(n, p);
}

/// The floor of a value is not above it, and the next integer is.
pub proof fn law_floors_are_below(x: Bin)
    ensures
        floor(x) * pow2(down(x.e)) <= x.m * pow2(up(x.e)),
        x.m * pow2(up(x.e)) < (floor(x) + 1) * pow2(down(x.e)),
{
    let n = (x.m * pow2(up(x.e))) as int;
    let unit = pow2(down(x.e)) as int;
    lemma_pow2_pos(down(x.e));
    lemma_fundamental_div_mod(n, unit);
    lemma_mod_bound(n, unit);
    let q = n / unit;
    assert(q * unit == unit * q && (q + 1) * unit == unit * q + unit) by (nonlinear_arith);
}

/// The ceiling of a value is not below it, and the integer before it is.
pub proof fn law_ceilings_are_above(x: Bin)
    ensures
        x.m * pow2(up(x.e)) <= ceiling(x) * pow2(down(x.e)),
        (ceiling(x) - 1) * pow2(down(x.e)) < x.m * pow2(up(x.e)),
{
    let n = (x.m * pow2(up(x.e))) as int;
    let unit = pow2(down(x.e)) as int;
    lemma_pow2_pos(down(x.e));
    lemma_fundamental_div_mod(n, unit);
    lemma_mod_bound(n, unit);
    let q = n / unit;
    assert(q * unit == unit * q && (q + 1) * unit == unit * q + unit && (q - 1) * unit == unit * q
        - unit) by (nonlinear_arith);
}

/// Rounding with halves up gives the integer within half of a value, the greater one of
/// two.
#[verifier::rlimit(40)]
pub proof fn law_halves_go_up(x: Bin)
    ensures
        (2 * half_up(x) - 1) * pow2(down(x.e)) <= 2 * (x.m * pow2(up(x.e))),
        2 * (x.m * pow2(up(x.e))) < (2 * half_up(x) + 1) * pow2(down(x.e)),
{
    let n = (x.m * pow2(up(x.e))) as int;
    let unit = pow2(down(x.e)) as int;
    lemma_pow2_pos(down(x.e));
    lemma_fundamental_div_mod(2 * n + unit, 2 * unit);
    lemma_mod_bound(2 * n + unit, 2 * unit);
    let q = (2 * n + unit) / (2 * unit);
    assert((2 * q - 1) * unit == 2 * unit * q - unit && (2 * q + 1) * unit == 2 * unit * q + unit)
        by (nonlinear_arith);
}

/// Rounding with halves to even gives the integer within half of a fraction, the even one
/// of two.
#[verifier::rlimit(40)]
pub proof fn law_halves_go_to_even(num: nat, den: nat)
    requires
        den > 0,
    ensures
        2 * num <= (2 * half_even(num, den) + 1) * den,
        (2 * half_even(num, den) - 1) * den <= 2 * num,
        2 * num == (2 * half_even(num, den) + 1) * den || 2 * num == (2 * half_even(num, den) - 1)
            * den ==> half_even(num, den) % 2 == 0,
{
    let n = num as int;
    let d = den as int;
    lemma_fundamental_div_mod(n, d);
    lemma_mod_bound(n, d);
    let q = n / d;
    let r = n % d;
    assert((2 * q - 1) * d == 2 * (d * q) - d && (2 * q + 1) * d == 2 * (d * q) + d && (2 * q + 3)
        * d == 2 * (d * q) + 3 * d) by (nonlinear_arith);
    let m = half_even(num, den) as int;
    assert(m == q || m == q + 1);
    assert(2 * (q + 1) - 1 == 2 * q + 1 && 2 * (q + 1) + 1 == 2 * q + 3);
}

} // verus!

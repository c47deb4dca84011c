//! How far rounded values lie from the exact ones.
//!
//! A rounded value is a fraction of integers, [`numer`] over [`denom`]. Every
//! operation on values of `p` significant bits gives the exact result but for
//! one part in `2^p`, and the square of a square root is exact but for two.

use crate::rounding;
use crate::rounding::Bin;
use vstd::arithmetic::div_mod::*;
use vstd::arithmetic::power2::*;
use vstd::prelude::*;

verus! {

/// Numerator of a value.
pub open spec fn numer(x: Bin) -> int {
    (x.m * pow2(rounding::up(x.e))) as int
}

/// Denominator of a value.
pub open spec fn denom(x: Bin) -> int {
    pow2(rounding::down(x.e)) as int
}

/// A denominator is positive, and so is the numerator of a positive value.
pub proof fn lemma_parts(x: Bin)
    ensures
        denom(x) > 0,
        numer(x) >= 0,
        x.m > 0 ==> numer(x) > 0,
{
    lemma_pow2_pos(rounding::up(x.e));
    lemma_pow2_pos(rounding::down(x.e));
    let m = x.m as int;
    let u = pow2(rounding::up(x.e)) as int;
    assert(m * u >= 0) by (nonlinear_arith)
        requires
            m >= 0,
            u > 0,
    ;
    if x.m > 0 {
        assert(m * u > 0) by (nonlinear_arith)
            requires
                m > 0,
                u > 0,
        ;
    }
}

/// Both sides of an inequality multiplied.
pub proof fn lemma_scale(a: int, b: int, c: int)
    requires
        a <= b,
        c >= 0,
    ensures
        a * c <= b * c,
{
    assert(a * c <= b * c) by (nonlinear_arith)
        requires
            a <= b,
            c >= 0,
    ;
}

/// Both sides of an inequality divided.
pub proof fn lemma_divide(a: int, b: int, c: int)
    requires
        a * c <= b * c,
        c > 0,
    ensures
        a <= b,
{
    assert(a <= b) by (nonlinear_arith)
        requires
            a * c <= b * c,
            c > 0,
    ;
}

/// A rounded quotient of integers is exact but for one part in `2^p`.
pub proof fn lemma_nearest_error(num: nat, den: nat, p: nat)
    requires
        p > 0,
        num > 0,
        den > 0,
    ensures
        ({
            let x = rounding::nearest(num, den, p);
            let k = pow2(p) as int;
            &&& (k - 1) * num * denom(x) <= k * numer(x) * den
            &&& k * numer(x) * den <= (k + 1) * num * denom(x)
        }),
{
    let x = rounding::nearest(num, den, p);
    rounding::lemma_binade_exists(num, den, p);
    let u = pow2(rounding::up(x.e)) as int;
    let v = pow2(rounding::down(x.e)) as int;
    lemma_pow2_pos(rounding::up(x.e));
    lemma_pow2_unfold(p);
    let half = pow2((p - 1) as nat) as int;
    let k = pow2(p) as int;
    let n = num as int;
    let d = den as int;
    let m = x.m as int;
    let a = n * v;
    let b = d * u;
    assert(b > 0) by (nonlinear_arith)
        requires
            b == d * u,
            d > 0,
            u > 0,
    ;
    assert(half * b <= a);
    lemma_fundamental_div_mod(a, b);
    let q = a / b;
    let r = a % b;
    assert(b * q == q * b) by (nonlinear_arith);
    assert((q + 1) * b == q * b + b) by (nonlinear_arith);
    assert(2 * (m * b - a) <= b && 2 * (a - m * b) <= b);
    let gap = m * b - a;
    assert(k * gap <= a && -(k * gap) <= a) by (nonlinear_arith)
        requires
            2 * gap <= b,
            -(2 * gap) <= b,
            half * b <= a,
            k == 2 * half,
            half >= 0,
    ;
    assert(k * (m * u) * d == k * gap + k * a) by (nonlinear_arith)
        requires
            gap == m * b - a,
            b == d * u,
    ;
    assert((k - 1) * n * v == k * a - a) by (nonlinear_arith)
        requires
            a == n * v,
    ;
    assert((k + 1) * n * v == k * a + a) by (nonlinear_arith)
        requires
            a == n * v,
    ;
}

/// A rounded integer is exact but for one part in `2^p`.
pub proof fn lemma_integer_error(n: nat, p: nat)
    requires
        p > 0,
        n > 0,
    ensures
        ({
            let x = rounding::nearest(n, 1, p);
            let k = pow2(p) as int;
            &&& (k - 1) * n * denom(x) <= k * numer(x)
            &&& k * numer(x) <= (k + 1) * n * denom(x)
        }),
{
    lemma_nearest_error(n, 1, p);
}

/// Two bounds on `m * u` against `n * v` move to another scale.
#[verifier::rlimit(40)]
proof fn lemma_rescaled(k: int, m: int, y: int, n: int, u: int, v: int, l: int, r: int)
    requires
        u > 0,
        l >= 0,
        l * v == r * u,
        (k - 1) * n * v <= k * (m * u) * y,
        k * (m * u) * y <= (k + 1) * n * v,
    ensures
        (k - 1) * n * r <= k * m * l * y,
        k * m * l * y <= (k + 1) * n * r,
{
    lemma_scale((k - 1) * n * v, k * (m * u) * y, l);
    lemma_scale(k * (m * u) * y, (k + 1) * n * v, l);
    assert((k - 1) * n * v * l == (k - 1) * n * r * u) by (nonlinear_arith)
        requires
            l * v == r * u,
    ;
    assert((k + 1) * n * v * l == (k + 1) * n * r * u) by (nonlinear_arith)
        requires
            l * v == r * u,
    ;
    assert(k * (m * u) * y * l == k * m * l * y * u) by (nonlinear_arith);
    lemma_divide((k - 1) * n * r, k * m * l * y, u);
    lemma_divide(k * m * l * y, (k + 1) * n * r, u);
}

/// A rounded quotient is exact but for one part in `2^p`.
#[verifier::rlimit(40)]
pub proof fn lemma_quotient_error(x: Bin, y: Bin, p: nat)
    requires
        p > 0,
        x.m > 0,
        y.m > 0,
    ensures
        ({
            let z = rounding::quotient(x, y, p);
            let k = pow2(p) as int;
            &&& (k - 1) * numer(x) * denom(y) * denom(z) <= k * numer(z) * denom(x) * numer(y)
            &&& k * numer(z) * denom(x) * numer(y) <= (k + 1) * numer(x) * denom(y) * denom(z)
        }),
{
    let b = rounding::nearest(x.m, y.m, p);
    let z = rounding::quotient(x, y, p);
    let k = pow2(p) as int;
    lemma_nearest_error(x.m, y.m, p);
    let u = pow2(rounding::up(b.e)) as int;
    let v = pow2(rounding::down(b.e)) as int;
    let zu = pow2(rounding::up(z.e)) as int;
    let zd = pow2(rounding::down(z.e)) as int;
    let xu = pow2(rounding::up(x.e)) as int;
    let xd = pow2(rounding::down(x.e)) as int;
    let yu = pow2(rounding::up(y.e)) as int;
    let yd = pow2(rounding::down(y.e)) as int;
    lemma_pow2_pos(rounding::up(b.e));
    lemma_pow2_pos(rounding::up(z.e));
    lemma_pow2_pos(rounding::down(x.e));
    lemma_pow2_pos(rounding::up(y.e));
    let l = zu * xd * yu;
    let r = xu * yd * zd;
    lemma_pow2_adds(rounding::up(z.e), rounding::down(x.e));
    lemma_pow2_adds(rounding::up(z.e) + rounding::down(x.e), rounding::up(y.e));
    lemma_pow2_adds(
        rounding::up(z.e) + rounding::down(x.e) + rounding::up(y.e),
        rounding::down(b.e),
    );
    lemma_pow2_adds(rounding::up(x.e), rounding::down(y.e));
    lemma_pow2_adds(rounding::up(x.e) + rounding::down(y.e), rounding::down(z.e));
    lemma_pow2_adds(
        rounding::up(x.e) + rounding::down(y.e) + rounding::down(z.e),
        rounding::up(b.e),
    );
    assert(l * v == r * u);
    assert(l >= 0) by (nonlinear_arith)
        requires
            l == zu * xd * yu,
            zu > 0,
            xd > 0,
            yu > 0,
    ;
    let m = b.m as int;
    let n = x.m as int;
    let d = y.m as int;
    lemma_rescaled(k, m, d, n, u, v, l, r);
    assert(k * m * l * d == k * (m * zu) * xd * (d * yu)) by (nonlinear_arith)
        requires
            l == zu * xd * yu,
    ;
    assert((k - 1) * n * r == (k - 1) * (n * xu) * yd * zd) by (nonlinear_arith)
        requires
            r == xu * yd * zd,
    ;
    assert((k + 1) * n * r == (k + 1) * (n * xu) * yd * zd) by (nonlinear_arith)
        requires
            r == xu * yd * zd,
    ;
}

/// A rounded product is exact but for one part in `2^p`.
pub proof fn lemma_product_error(x: Bin, y: Bin, p: nat)
    requires
        p > 0,
        x.m > 0,
        y.m > 0,
    ensures
        ({
            let z = rounding::product(x, y, p);
            let k = pow2(p) as int;
            &&& (k - 1) * numer(x) * numer(y) * denom(z) <= k * numer(z) * denom(x) * denom(y)
            &&& k * numer(z) * denom(x) * denom(y) <= (k + 1) * numer(x) * numer(y) * denom(z)
        }),
{
    let n = x.m * y.m;
    let xm = x.m as int;
    let ym = y.m as int;
    assert(xm * ym > 0) by (nonlinear_arith)
        requires
            xm > 0,
            ym > 0,
    ;
    let b = rounding::nearest(n, 1, p);
    let z = rounding::product(x, y, p);
    let k = pow2(p) as int;
    lemma_nearest_error(n, 1, p);
    let u = pow2(rounding::up(b.e)) as int;
    let v = pow2(rounding::down(b.e)) as int;
    let zu = pow2(rounding::up(z.e)) as int;
    let zd = pow2(rounding::down(z.e)) as int;
    let xu = pow2(rounding::up(x.e)) as int;
    let xd = pow2(rounding::down(x.e)) as int;
    let yu = pow2(rounding::up(y.e)) as int;
    let yd = pow2(rounding::down(y.e)) as int;
    lemma_pow2_pos(rounding::up(b.e));
    lemma_pow2_pos(rounding::up(z.e));
    lemma_pow2_pos(rounding::down(x.e));
    lemma_pow2_pos(rounding::down(y.e));
    let l = zu * xd * yd;
    let r = xu * yu * zd;
    lemma_pow2_adds(rounding::up(z.e), rounding::down(x.e));
    lemma_pow2_adds(rounding::up(z.e) + rounding::down(x.e), rounding::down(y.e));
    lemma_pow2_adds(
        rounding::up(z.e) + rounding::down(x.e) + rounding::down(y.e),
        rounding::down(b.e),
    );
    lemma_pow2_adds(rounding::up(x.e), rounding::up(y.e));
    lemma_pow2_adds(rounding::up(x.e) + rounding::up(y.e), rounding::down(z.e));
    lemma_pow2_adds(
        rounding::up(x.e) + rounding::up(y.e) + rounding::down(z.e),
        rounding::up(b.e),
    );
    assert(l * v == r * u);
    assert(l >= 0) by (nonlinear_arith)
        requires
            l == zu * xd * yd,
            zu > 0,
            xd > 0,
            yd > 0,
    ;
    let m = b.m as int;
    let nn = n as int;
    lemma_rescaled(k, m, 1, nn, u, v, l, r);
    assert(k * m * l * 1 == k * (m * zu) * xd * yd) by (nonlinear_arith)
        requires
            l == zu * xd * yd,
    ;
    assert((k - 1) * nn * r == (k - 1) * (xm * xu) * (ym * yu) * zd) by (nonlinear_arith)
        requires
            nn == xm * ym,
            r == xu * yu * zd,
    ;
    assert((k + 1) * nn * r == (k + 1) * (xm * xu) * (ym * yu) * zd) by (nonlinear_arith)
        requires
            nn == xm * ym,
            r == xu * yu * zd,
    ;
}

/// The square of a rounded square root is exact but for two parts in `2^p`.
#[verifier::rlimit(40)]
pub proof fn lemma_root_error(x: Bin, p: nat)
    requires
        p > 1,
        0 < x.m <= pow2(p),
    ensures
        ({
            let z = rounding::square_root(x, p);
            let k = pow2(p) as int;
            &&& (k - 2) * numer(x) * (denom(z) * denom(z)) <= k * (numer(z) * numer(z)) * denom(x)
            &&& k * (numer(z) * numer(z)) * denom(x) <= (k + 2) * numer(x) * (denom(z) * denom(z))
        }),
{
    let z = rounding::square_root(x, p);
    let n = if x.e % 2 == 0 {
        x.m
    } else {
        2 * x.m
    };
    let half = if x.e % 2 == 0 {
        x.e / 2
    } else {
        (x.e - 1) / 2
    };
    let odd: nat = if x.e % 2 == 0 {
        0
    } else {
        1
    };
    lemma_pow2_adds(p, 1);
    lemma2_to64();
    rounding::lemma_times_one(n);
    lemma_pow2_strictly_increases(p + 1, 2 * p);
    rounding::lemma_root_binade_exists(n, p, 0);
    let s = rounding::root_binade(n, p);
    let v = (n * pow2(2 * s)) as int;
    lemma_pow2_pos((2 * p - 2) as nat);
    rounding::lemma_root_exists(v as nat, 0);
    let r = rounding::root(v as nat) as int;
    let m = z.m as int;
    let k = pow2(p) as int;
    let low = pow2((p - 1) as nat) as int;
    lemma_pow2_unfold(p);
    lemma_pow2_pos((p - 1) as nat);
    lemma_pow2_adds((p - 1) as nat, (p - 1) as nat);
    assert((p - 1) as nat + (p - 1) as nat == (2 * p - 2) as nat);
    assert(low * low <= v);
    assert(low <= r) by (nonlinear_arith)
        requires
            low * low <= v,
            v < (r + 1) * (r + 1),
            r >= 0,
            low > 0,
    ;
    assert((r + 1) * (r + 1) == r * r + 2 * r + 1) by (nonlinear_arith);
    assert(m * m - v <= r && v - m * m <= r) by {
        if v - r * r > r {
            assert(m == r + 1);
        } else {
            assert(m == r);
        }
    }
    let gap = m * m - v;
    assert(k * gap <= 2 * v && -(k * gap) <= 2 * v) by (nonlinear_arith)
        requires
            gap <= r,
            -gap <= r,
            low <= r,
            r * r <= v,
            k == 2 * low,
            low > 0,
    ;
    assert((k - 2) * v <= k * (m * m) && k * (m * m) <= (k + 2) * v) by (nonlinear_arith)
        requires
            gap == m * m - v,
            k * gap <= 2 * v,
            -(k * gap) <= 2 * v,
    ;
    let zu = pow2(rounding::up(z.e)) as int;
    let zd = pow2(rounding::down(z.e)) as int;
    let xu = pow2(rounding::up(x.e)) as int;
    let xd = pow2(rounding::down(x.e)) as int;
    let ss = pow2(2 * s) as int;
    let o = pow2(odd) as int;
    lemma_pow2_pos(rounding::up(z.e));
    lemma_pow2_pos(rounding::down(x.e));
    assert(z.e == half - s);
    let zup = rounding::up(z.e);
    let zdown = rounding::down(z.e);
    lemma_pow2_adds(zup, zup);
    lemma_pow2_adds(zdown, zdown);
    lemma_pow2_adds(odd, 2 * s);
    lemma_pow2_adds(odd + 2 * s, zup + zup);
    lemma_pow2_adds(odd + 2 * s + (zup + zup), rounding::down(x.e));
    lemma_pow2_adds(rounding::up(x.e), zdown + zdown);
    assert(odd + 2 * s + (zup + zup) + rounding::down(x.e) == rounding::up(x.e) + (zdown + zdown));
    let c = zu * zu * xd;
    assert(o * ss * (zu * zu) * xd == xu * (zd * zd));
    let xm = x.m as int;
    let os = o * ss;
    let zz = zu * zu;
    let dd = zd * zd;
    assert(v == xm * os) by (nonlinear_arith)
        requires
            v == n * ss,
            n == xm * o,
            os == o * ss,
    ;
    assert((xm * os) * (zz * xd) == xm * (os * zz * xd)) by (nonlinear_arith);
    assert(xm * (xu * dd) == xm * xu * dd) by (nonlinear_arith);
    assert(v * c == xm * xu * (zd * zd));
    assert(c >= 0) by (nonlinear_arith)
        requires
            c == zu * zu * xd,
            zu > 0,
            xd > 0,
    ;
    lemma_scale((k - 2) * v, k * (m * m), c);
    lemma_scale(k * (m * m), (k + 2) * v, c);
    let xx = xm * xu;
    assert((k - 2) * v * c == (k - 2) * (v * c) && (k - 2) * (xx * dd) == (k - 2) * xx * dd)
        by (nonlinear_arith);
    assert((k + 2) * v * c == (k + 2) * (v * c) && (k + 2) * (xx * dd) == (k + 2) * xx * dd)
        by (nonlinear_arith);
    let mm = m * m;
    assert((m * zu) * (m * zu) == mm * zz) by (nonlinear_arith)
        requires
            mm == m * m,
            zz == zu * zu,
    ;
    assert(k * mm * (zz * xd) == k * (mm * zz) * xd) by (nonlinear_arith);
}

/// A bound from above on a quotient, without the divisor.
#[verifier::rlimit(40)]
proof fn lemma_divisor_above(k: int, f: int, nr: int, dr: int, nq: int, dq: int, nf: int, df: int)
    requires
        k * nr * dq * nf <= (k + 1) * nq * df * dr,
        (k - 1) * f * df <= k * nf,
        nr >= 0,
        dq > 0,
        df > 0,
    ensures
        (k - 1) * f * nr * dq <= (k + 1) * nq * dr,
{
    assert(nr * dq >= 0) by (nonlinear_arith)
        requires
            nr >= 0,
            dq > 0,
    ;
    lemma_scale((k - 1) * f * df, k * nf, nr * dq);
    assert((k - 1) * f * df * (nr * dq) == (k - 1) * f * nr * dq * df) by (nonlinear_arith);
    assert(k * nf * (nr * dq) == k * nr * dq * nf) by (nonlinear_arith);
    assert((k + 1) * nq * df * dr == (k + 1) * nq * dr * df) by (nonlinear_arith);
    lemma_divide((k - 1) * f * nr * dq, (k + 1) * nq * dr, df);
}

/// A bound from below on a quotient, without the divisor.
#[verifier::rlimit(40)]
proof fn lemma_divisor_below(k: int, f: int, nr: int, dr: int, nq: int, dq: int, nf: int, df: int)
    requires
        (k - 1) * nq * df * dr <= k * nr * dq * nf,
        k * nf <= (k + 1) * f * df,
        nr >= 0,
        dq > 0,
        df > 0,
    ensures
        (k - 1) * nq * dr <= (k + 1) * f * nr * dq,
{
    assert(nr * dq >= 0) by (nonlinear_arith)
        requires
            nr >= 0,
            dq > 0,
    ;
    lemma_scale(k * nf, (k + 1) * f * df, nr * dq);
    assert((k + 1) * f * df * (nr * dq) == (k + 1) * f * nr * dq * df) by (nonlinear_arith);
    assert(k * nf * (nr * dq) == k * nr * dq * nf) by (nonlinear_arith);
    assert((k - 1) * nq * df * dr == (k - 1) * nq * dr * df) by (nonlinear_arith);
    lemma_divide((k - 1) * nq * dr, (k + 1) * f * nr * dq, df);
}

/// A bound from above on a value, without the integer it is made of.
#[verifier::rlimit(40)]
proof fn lemma_integer_above(k: int, h: int, ns: int, ds: int, nq: int, dq: int, x: int, y: int)
    requires
        k * nq * ds * x <= (k + 1) * ns * y * dq,
        k * ns <= (k + 1) * h * ds,
        k > 1,
        y >= 0,
        dq > 0,
        ds > 0,
    ensures
        k * k * nq * x <= (k + 1) * (k + 1) * h * y * dq,
{
    lemma_scale(k * nq * ds * x, (k + 1) * ns * y * dq, k);
    assert((k + 1) * y * dq >= 0) by (nonlinear_arith)
        requires
            k > 1,
            y >= 0,
            dq > 0,
    ;
    lemma_scale(k * ns, (k + 1) * h * ds, (k + 1) * y * dq);
    assert(k * nq * ds * x * k == k * k * nq * x * ds) by (nonlinear_arith);
    assert((k + 1) * ns * y * dq * k == k * ns * ((k + 1) * y * dq)) by (nonlinear_arith);
    assert((k + 1) * h * ds * ((k + 1) * y * dq) == (k + 1) * (k + 1) * h * y * dq * ds)
        by (nonlinear_arith);
    lemma_divide(k * k * nq * x, (k + 1) * (k + 1) * h * y * dq, ds);
}

/// A bound from below on a value, without the integer it is made of.
#[verifier::rlimit(40)]
proof fn lemma_integer_below(k: int, h: int, ns: int, ds: int, nq: int, dq: int, x: int, y: int)
    requires
        (k - 1) * ns * y * dq <= k * nq * ds * x,
        (k - 1) * h * ds <= k * ns,
        k > 1,
        y >= 0,
        dq > 0,
        ds > 0,
    ensures
        (k - 1) * (k - 1) * h * y * dq <= k * k * nq * x,
{
    lemma_scale((k - 1) * ns * y * dq, k * nq * ds * x, k);
    assert((k - 1) * y * dq >= 0) by (nonlinear_arith)
        requires
            k > 1,
            y >= 0,
            dq > 0,
    ;
    lemma_scale((k - 1) * h * ds, k * ns, (k - 1) * y * dq);
    assert(k * nq * ds * x * k == k * k * nq * x * ds) by (nonlinear_arith);
    assert((k - 1) * ns * y * dq * k == k * ns * ((k - 1) * y * dq)) by (nonlinear_arith);
    assert((k - 1) * h * ds * ((k - 1) * y * dq) == (k - 1) * (k - 1) * h * y * dq * ds)
        by (nonlinear_arith);
    lemma_divide((k - 1) * (k - 1) * h * y * dq, k * k * nq * x, ds);
}

/// Two steps of bounds from above in one.
#[verifier::rlimit(40)]
proof fn lemma_steps_above(k: int, f: int, nr: int, dr: int, nq: int, dq: int, h: int, x: int, y: int)
    requires
        (k - 1) * f * nr * dq <= (k + 1) * nq * dr,
        k * k * nq * x <= (k + 1) * (k + 1) * h * y * dq,
        k > 1,
        x >= 0,
        dr > 0,
        dq > 0,
    ensures
        k * k * (k - 1) * (f * nr) * x <= (k + 1) * (k + 1) * (k + 1) * h * y * dr,
{
    assert(k * k * x >= 0 && (k + 1) * dr >= 0) by (nonlinear_arith)
        requires
            k > 1,
            x >= 0,
            dr > 0,
    ;
    lemma_scale((k - 1) * f * nr * dq, (k + 1) * nq * dr, k * k * x);
    lemma_scale(k * k * nq * x, (k + 1) * (k + 1) * h * y * dq, (k + 1) * dr);
    assert((k - 1) * f * nr * dq * (k * k * x) == k * k * (k - 1) * (f * nr) * x * dq)
        by (nonlinear_arith);
    assert((k + 1) * nq * dr * (k * k * x) == k * k * nq * x * ((k + 1) * dr)) by (nonlinear_arith);
    assert((k + 1) * (k + 1) * h * y * dq * ((k + 1) * dr) == (k + 1) * (k + 1) * (k + 1) * h * y
        * dr * dq) by (nonlinear_arith);
    lemma_divide(
        k * k * (k - 1) * (f * nr) * x,
        (k + 1) * (k + 1) * (k + 1) * h * y * dr,
        dq,
    );
}

/// Two steps of bounds from below in one.
#[verifier::rlimit(40)]
proof fn lemma_steps_below(k: int, f: int, nr: int, dr: int, nq: int, dq: int, h: int, x: int, y: int)
    requires
        (k - 1) * nq * dr <= (k + 1) * f * nr * dq,
        (k - 1) * (k - 1) * h * y * dq <= k * k * nq * x,
        k > 1,
        x >= 0,
        dr > 0,
        dq > 0,
    ensures
        (k - 1) * (k - 1) * (k - 1) * h * y * dr <= k * k * (k + 1) * (f * nr) * x,
{
    assert(k * k * x >= 0 && (k - 1) * dr >= 0) by (nonlinear_arith)
        requires
            k > 1,
            x >= 0,
            dr > 0,
    ;
    lemma_scale((k - 1) * nq * dr, (k + 1) * f * nr * dq, k * k * x);
    lemma_scale((k - 1) * (k - 1) * h * y * dq, k * k * nq * x, (k - 1) * dr);
    assert((k + 1) * f * nr * dq * (k * k * x) == k * k * (k + 1) * (f * nr) * x * dq)
        by (nonlinear_arith);
    assert((k - 1) * nq * dr * (k * k * x) == k * k * nq * x * ((k - 1) * dr)) by (nonlinear_arith);
    assert((k - 1) * (k - 1) * h * y * dq * ((k - 1) * dr) == (k - 1) * (k - 1) * (k - 1) * h * y
        * dr * dq) by (nonlinear_arith);
    lemma_divide(
        (k - 1) * (k - 1) * (k - 1) * h * y * dr,
        k * k * (k + 1) * (f * nr) * x,
        dq,
    );
}

/// An integer divided by a value and by another integer.
pub proof fn lemma_divided_error(h: nat, b: Bin, f: nat, p: nat)
    requires
        p > 0,
        h > 0,
        f > 0,
        b.m > 0,
    ensures
        ({
            let r = rounding::quotient(
                rounding::quotient(rounding::nearest(h, 1, p), b, p),
                rounding::nearest(f, 1, p),
                p,
            );
            let k = pow2(p) as int;
            &&& r.m > 0
            &&& k * k * (k - 1) * (f * numer(r)) * numer(b) <= (k + 1) * (k + 1) * (k + 1) * h
                * denom(b) * denom(r)
            &&& (k - 1) * (k - 1) * (k - 1) * h * denom(b) * denom(r) <= k * k * (k + 1) * (f
                * numer(r)) * numer(b)
        }),
{
    let s = rounding::nearest(h, 1, p);
    let d = rounding::nearest(f, 1, p);
    rounding::lemma_nearest_parts(h, 1, p);
    rounding::lemma_nearest_parts(f, 1, p);
    let q = rounding::quotient(s, b, p);
    rounding::lemma_quotient_positive(s, b, p);
    let r = rounding::quotient(q, d, p);
    rounding::lemma_quotient_positive(q, d, p);
    lemma_integer_error(h, p);
    lemma_integer_error(f, p);
    lemma_quotient_error(s, b, p);
    lemma_quotient_error(q, d, p);
    lemma_parts(s);
    lemma_parts(d);
    lemma_parts(q);
    lemma_parts(r);
    lemma_parts(b);
    lemma_pow2_unfold(p);
    lemma_pow2_pos((p - 1) as nat);
    let k = pow2(p) as int;
    lemma_divisor_above(k, f as int, numer(r), denom(r), numer(q), denom(q), numer(d), denom(d));
    lemma_divisor_below(k, f as int, numer(r), denom(r), numer(q), denom(q), numer(d), denom(d));
    lemma_integer_above(k, h as int, numer(s), denom(s), numer(q), denom(q), numer(b), denom(b));
    lemma_integer_below(k, h as int, numer(s), denom(s), numer(q), denom(q), numer(b), denom(b));
    lemma_steps_above(
        k,
        f as int,
        numer(r),
        denom(r),
        numer(q),
        denom(q),
        h as int,
        numer(b),
        denom(b),
    );
    lemma_steps_below(
        k,
        f as int,
        numer(r),
        denom(r),
        numer(q),
        denom(q),
        h as int,
        numer(b),
        denom(b),
    );
}

/// An integer multiplied by a value and divided by another integer.
pub proof fn lemma_multiplied_error(h: nat, b: Bin, f: nat, p: nat)
    requires
        p > 0,
        h > 0,
        f > 0,
        b.m > 0,
    ensures
        ({
            let r = rounding::quotient(
                rounding::product(rounding::nearest(h, 1, p), b, p),
                rounding::nearest(f, 1, p),
                p,
            );
            let k = pow2(p) as int;
            &&& r.m > 0
            &&& (k - 1) * (k - 1) * (k - 1) * h * numer(b) * denom(r) <= k * k * (k + 1) * (f
                * numer(r)) * denom(b)
            &&& k * k * (k - 1) * (f * numer(r)) * denom(b) <= (k + 1) * (k + 1) * (k + 1) * h
                * numer(b) * denom(r)
        }),
{
    let s = rounding::nearest(h, 1, p);
    let d = rounding::nearest(f, 1, p);
    rounding::lemma_nearest_parts(h, 1, p);
    rounding::lemma_nearest_parts(f, 1, p);
    let q = rounding::product(s, b, p);
    rounding::lemma_product_positive(s, b, p);
    let r = rounding::quotient(q, d, p);
    rounding::lemma_quotient_positive(q, d, p);
    lemma_integer_error(h, p);
    lemma_integer_error(f, p);
    lemma_product_error(s, b, p);
    lemma_quotient_error(q, d, p);
    lemma_parts(s);
    lemma_parts(d);
    lemma_parts(q);
    lemma_parts(r);
    lemma_parts(b);
    lemma_pow2_unfold(p);
    lemma_pow2_pos((p - 1) as nat);
    let k = pow2(p) as int;
    lemma_divisor_below(k, f as int, numer(r), denom(r), numer(q), denom(q), numer(d), denom(d));
    lemma_integer_below(k, h as int, numer(s), denom(s), numer(q), denom(q), denom(b), numer(b));
    lemma_steps_below(
        k,
        f as int,
        numer(r),
        denom(r),
        numer(q),
        denom(q),
        h as int,
        denom(b),
        numer(b),
    );
    lemma_divisor_above(k, f as int, numer(r), denom(r), numer(q), denom(q), numer(d), denom(d));
    assert(k * numer(q) * denom(s) * denom(b) <= (k + 1) * numer(s) * numer(b) * denom(q));
    lemma_integer_above(k, h as int, numer(s), denom(s), numer(q), denom(q), denom(b), numer(b));
    lemma_steps_above(
        k,
        f as int,
        numer(r),
        denom(r),
        numer(q),
        denom(q),
        h as int,
        denom(b),
        numer(b),
    );
}

/// A quotient of integers.
#[verifier::rlimit(40)]
pub proof fn lemma_ratio_error(a: nat, c: nat, p: nat)
    requires
        p > 0,
        a > 0,
        c > 0,
    ensures
        ({
            let t = rounding::quotient(rounding::nearest(a, 1, p), rounding::nearest(c, 1, p), p);
            let k = pow2(p) as int;
            &&& 0 < t.m <= pow2(p)
            &&& (k - 1) * (k - 1) * a * denom(t) <= k * (k + 1) * c * numer(t)
            &&& k * (k - 1) * c * numer(t) <= (k + 1) * (k + 1) * a * denom(t)
        }),
{
    let s = rounding::nearest(a, 1, p);
    let d = rounding::nearest(c, 1, p);
    rounding::lemma_nearest_parts(a, 1, p);
    rounding::lemma_nearest_parts(c, 1, p);
    let t = rounding::quotient(s, d, p);
    rounding::lemma_quotient_positive(s, d, p);
    lemma_integer_error(a, p);
    lemma_integer_error(c, p);
    lemma_quotient_error(s, d, p);
    lemma_parts(s);
    lemma_parts(d);
    lemma_parts(t);
    lemma_pow2_unfold(p);
    lemma_pow2_pos((p - 1) as nat);
    let k = pow2(p) as int;
    let (na, da, nt, dt) = (numer(s), denom(s), numer(t), denom(t));
    let ai = a as int;
    let ci = c as int;
    lemma_divisor_above(k, ci, nt, dt, na, da, numer(d), denom(d));
    lemma_divisor_below(k, ci, nt, dt, na, da, numer(d), denom(d));
    assert((k + 1) * dt >= 0 && (k - 1) * dt >= 0) by (nonlinear_arith)
        requires
            k > 1,
            dt > 0,
    ;
    lemma_scale(k * na, (k + 1) * ai * da, (k + 1) * dt);
    lemma_scale((k - 1) * ci * nt * da, (k + 1) * na * dt, k);
    assert((k - 1) * ci * nt * da * k == k * (k - 1) * ci * nt * da) by (nonlinear_arith);
    assert((k + 1) * na * dt * k == k * na * ((k + 1) * dt)) by (nonlinear_arith);
    assert((k + 1) * ai * da * ((k + 1) * dt) == (k + 1) * (k + 1) * ai * dt * da)
        by (nonlinear_arith);
    lemma_divide(k * (k - 1) * ci * nt, (k + 1) * (k + 1) * ai * dt, da);
    lemma_scale((k - 1) * ai * da, k * na, (k - 1) * dt);
    lemma_scale((k - 1) * na * dt, (k + 1) * ci * nt * da, k);
    assert((k + 1) * ci * nt * da * k == k * (k + 1) * ci * nt * da) by (nonlinear_arith);
    assert((k - 1) * na * dt * k == k * na * ((k - 1) * dt)) by (nonlinear_arith);
    assert((k - 1) * ai * da * ((k - 1) * dt) == (k - 1) * (k - 1) * ai * dt * da)
        by (nonlinear_arith);
    lemma_divide((k - 1) * (k - 1) * ai * dt, k * (k + 1) * ci * nt, da);
}

/// The square root of a quotient of integers.
#[verifier::rlimit(40)]
pub proof fn lemma_root_of_ratio_error(a: nat, c: nat, p: nat)
    requires
        p > 1,
        a > 0,
        c > 0,
    ensures
        ({
            let b = rounding::square_root(
                rounding::quotient(rounding::nearest(a, 1, p), rounding::nearest(c, 1, p), p),
                p,
            );
            let k = pow2(p) as int;
            &&& b.m > 0
            &&& (k - 2) * (k - 1) * (k - 1) * a * (denom(b) * denom(b)) <= k * k * (k + 1) * c * (
            numer(b) * numer(b))
            &&& k * k * (k - 1) * c * (numer(b) * numer(b)) <= (k + 2) * (k + 1) * (k + 1) * a * (
            denom(b) * denom(b))
        }),
{
    let t = rounding::quotient(rounding::nearest(a, 1, p), rounding::nearest(c, 1, p), p);
    lemma_ratio_error(a, c, p);
    let b = rounding::square_root(t, p);
    rounding::lemma_root_positive(t, p);
    lemma_root_error(t, p);
    lemma_parts(t);
    lemma_parts(b);
    lemma_pow2_unfold(p);
    lemma_pow2_unfold((p - 1) as nat);
    lemma_pow2_pos((p - 2) as nat);
    let k = pow2(p) as int;
    assert(k >= 4);
    let (nt, dt) = (numer(t), denom(t));
    let nn = numer(b) * numer(b);
    let dd = denom(b) * denom(b);
    let ai = a as int;
    let ci = c as int;
    assert(nn >= 0 && dd >= 0) by (nonlinear_arith)
        requires
            nn == numer(b) * numer(b),
            dd == denom(b) * denom(b),
    ;
    assert((k - 2) * dd >= 0 && (k + 2) * dd >= 0 && k * (k + 1) * ci >= 0 && k * (k - 1) * ci
        >= 0) by (nonlinear_arith)
        requires
            k >= 4,
            dd >= 0,
            ci > 0,
    ;
    lemma_scale((k - 1) * (k - 1) * ai * dt, k * (k + 1) * ci * nt, (k - 2) * dd);
    lemma_scale((k - 2) * nt * dd, k * nn * dt, k * (k + 1) * ci);
    assert((k - 1) * (k - 1) * ai * dt * ((k - 2) * dd) == (k - 2) * (k - 1) * (k - 1) * ai * dd
        * dt) by (nonlinear_arith);
    assert(k * (k + 1) * ci * nt * ((k - 2) * dd) == (k - 2) * nt * dd * (k * (k + 1) * ci))
        by (nonlinear_arith);
    assert(k * nn * dt * (k * (k + 1) * ci) == k * k * (k + 1) * ci * nn * dt)
        by (nonlinear_arith);
    lemma_divide((k - 2) * (k - 1) * (k - 1) * ai * dd, k * k * (k + 1) * ci * nn, dt);
    lemma_scale(k * (k - 1) * ci * nt, (k + 1) * (k + 1) * ai * dt, (k + 2) * dd);
    lemma_scale(k * nn * dt, (k + 2) * nt * dd, k * (k - 1) * ci);
    assert((k + 1) * (k + 1) * ai * dt * ((k + 2) * dd) == (k + 2) * (k + 1) * (k + 1) * ai * dd
        * dt) by (nonlinear_arith);
    assert(k * (k - 1) * ci * nt * ((k + 2) * dd) == (k + 2) * nt * dd * (k * (k - 1) * ci))
        by (nonlinear_arith);
    assert(k * nn * dt * (k * (k - 1) * ci) == k * k * (k - 1) * ci * nn * dt)
        by (nonlinear_arith);
    lemma_divide(k * k * (k - 1) * ci * nn, (k + 2) * (k + 1) * (k + 1) * ai * dd, dt);
}

/// A rounded quotient of integers does not pass a value of `p` bits that the exact
/// one does not pass.
pub proof fn lemma_nearest_within(num: nat, den: nat, p: nat, m: nat, e: int)
    requires
        p > 0,
        den > 0,
        num > 0,
        m < pow2(p),
        num * pow2(rounding::down(e)) <= m * (den * pow2(rounding::up(e))),
    ensures
        rounding::not_below(Bin { m, e }, rounding::nearest(num, den, p)),
{
    let x = rounding::nearest(num, den, p);
    rounding::lemma_binade_exists(num, den, p);
    let lo = pow2((p - 1) as nat) as int;
    let uq = pow2(rounding::up(x.e)) as int;
    let dq = pow2(rounding::down(x.e)) as int;
    let ut = pow2(rounding::up(e)) as int;
    let dt = pow2(rounding::down(e)) as int;
    let n = num as int;
    let d = den as int;
    let mm = m as int;
    let xm = x.m as int;
    let a = n * dq;
    let b = d * uq;
    lemma_pow2_pos(rounding::up(x.e));
    lemma_pow2_pos(rounding::down(x.e));
    lemma_pow2_pos(rounding::up(e));
    lemma_pow2_pos(rounding::down(e));
    lemma_pow2_pos((p - 1) as nat);
    lemma_pow2_unfold(p);
    assert(b > 0) by (nonlinear_arith)
        requires
            b == d * uq,
            d > 0,
            uq > 0,
    ;
    let v = ut * dq;
    lemma_scale(n * dt, mm * (d * ut), dq);
    assert(n * dt * dq == a * dt) by (nonlinear_arith)
        requires
            a == n * dq,
    ;
    assert(mm * (d * ut) * dq == mm * d * v) by (nonlinear_arith)
        requires
            v == ut * dq,
    ;
    if e >= x.e {
        let s = (e - x.e) as nat;
        let ts = pow2(s) as int;
        lemma_pow2_adds(s, rounding::up(x.e));
        lemma_pow2_adds(s + rounding::up(x.e), rounding::down(e));
        lemma_pow2_adds(rounding::up(e), rounding::down(x.e));
        assert(ts * uq * dt == v);
        let t = mm * ts;
        assert(mm * d * v == t * b * dt) by (nonlinear_arith)
            requires
                v == ts * uq * dt,
                t == mm * ts,
                b == d * uq,
        ;
        lemma_divide(a, t * b, dt);
        lemma_fundamental_div_mod(a, b);
        let q = a / b;
        let r = a % b;
        assert(q < t || (q == t && r == 0)) by (nonlinear_arith)
            requires
                a == b * q + r,
                0 <= r < b,
                a <= t * b,
        ;
        assert(xm <= t);
        assert(uq * dt >= 0) by (nonlinear_arith)
            requires
                uq > 0,
                dt > 0,
        ;
        lemma_scale(xm, t, uq * dt);
        assert(t * (uq * dt) == mm * v) by (nonlinear_arith)
            requires
                v == ts * uq * dt,
                t == mm * ts,
        ;
        assert(mm * v == mm * ut * dq) by (nonlinear_arith)
            requires
                v == ut * dq,
        ;
    } else {
        lemma_pow2_adds(rounding::up(x.e), rounding::down(e));
        lemma_pow2_adds(rounding::up(e), rounding::down(x.e));
        lemma_pow2_unfold(rounding::up(e) + rounding::down(x.e) + 1);
        if rounding::up(e) + rounding::down(x.e) + 1 < rounding::up(x.e) + rounding::down(e) {
            lemma_pow2_strictly_increases(
                rounding::up(e) + rounding::down(x.e) + 1,
                rounding::up(x.e) + rounding::down(e),
            );
        }
        let w = uq * dt;
        assert(w >= 2 * v);
        assert(v > 0) by (nonlinear_arith)
            requires
                v == ut * dq,
                ut > 0,
                dq > 0,
        ;
        lemma_scale(lo * b, a, dt);
        assert(lo * b * dt == lo * w * d) by (nonlinear_arith)
            requires
                b == d * uq,
                w == uq * dt,
        ;
        assert(mm * d * v == mm * v * d) by (nonlinear_arith);
        lemma_divide(lo * w, mm * v, d);
        assert(false) by (nonlinear_arith)
            requires
                lo * w <= mm * v,
                w >= 2 * v,
                v > 0,
                mm < 2 * lo,
                lo > 0,
        ;
    }
}

/// Comparing with an integer, over the parts of a value.
proof fn lemma_against_integer(x: Bin, c: nat)
    ensures
        rounding::reaches(x, c, 0) == (numer(x) >= c * denom(x)),
        rounding::reaches(Bin { m: c, e: 0 }, x.m, x.e) == (c * denom(x) >= numer(x)),
{
    lemma2_to64();
    let n = numer(x);
    let d = denom(x);
    let ci = c as int;
    assert(n * 1 == n && ci * (1 * d) == ci * d && ci * 1 * d == ci * d) by (nonlinear_arith);
    assert((x.m * (pow2(rounding::up(x.e)) * 1)) as int == n) by (nonlinear_arith)
        requires
            n == x.m * pow2(rounding::up(x.e)),
    ;
}

/// Integers of fewer than `p` bits are not rounded.
pub proof fn lemma_integer_exact(n: nat, p: nat)
    requires
        p > 0,
        0 < n < pow2(p),
    ensures
        numer(rounding::nearest(n, 1, p)) == n * denom(rounding::nearest(n, 1, p)),
{
    let x = rounding::nearest(n, 1, p);
    lemma2_to64();
    assert(rounding::ratio_reaches(n, 1, n, 0));
    rounding::lemma_nearest_reaches(n, 1, p, n, 0);
    lemma_nearest_within(n, 1, p, n, 0);
    lemma_against_integer(x, n);
}

/// The quotient of integers of fewer than `p` bits compares with an integer of fewer
/// than `p` bits as the exact one does.
#[verifier::rlimit(40)]
pub proof fn lemma_exact_quotient(a: nat, b: nat, c: nat, p: nat)
    requires
        p > 0,
        0 < a < pow2(p),
        0 < b < pow2(p),
        c < pow2(p),
    ensures
        ({
            let t = rounding::quotient(rounding::nearest(a, 1, p), rounding::nearest(b, 1, p), p);
            &&& a <= c * b ==> numer(t) <= c * denom(t)
            &&& a >= c * b ==> numer(t) >= c * denom(t)
        }),
{
    let x = rounding::nearest(a, 1, p);
    let y = rounding::nearest(b, 1, p);
    rounding::lemma_nearest_parts(a, 1, p);
    rounding::lemma_nearest_parts(b, 1, p);
    lemma_integer_exact(a, p);
    lemma_integer_exact(b, p);
    let s = y.e - x.e;
    let q = rounding::nearest(x.m, y.m, p);
    let t = rounding::quotient(x, y, p);
    let xu = pow2(rounding::up(x.e)) as int;
    let xd = pow2(rounding::down(x.e)) as int;
    let yu = pow2(rounding::up(y.e)) as int;
    let yd = pow2(rounding::down(y.e)) as int;
    let su = pow2(rounding::up(s)) as int;
    let sd = pow2(rounding::down(s)) as int;
    lemma_pow2_pos(rounding::up(x.e));
    lemma_pow2_pos(rounding::down(x.e));
    lemma_pow2_pos(rounding::up(y.e));
    lemma_pow2_adds(rounding::down(s), rounding::down(x.e));
    lemma_pow2_adds(rounding::down(s) + rounding::down(x.e), rounding::up(y.e));
    lemma_pow2_adds(rounding::up(s), rounding::up(x.e));
    lemma_pow2_adds(rounding::up(s) + rounding::up(x.e), rounding::down(y.e));
    assert(sd * xd * yu == su * xu * yd);
    let w = sd * xd * yu;
    let xm = x.m as int;
    let ym = y.m as int;
    let ci = c as int;
    let ai = a as int;
    let bi = b as int;
    let z = xu * yu * xd;
    assert(z > 0 && w * xd >= 0) by (nonlinear_arith)
        requires
            z == xu * yu * xd,
            w == su * xu * yd,
            xu > 0,
            yu > 0,
            xd > 0,
            su * xu * yd >= 0,
    ;
    let left = xm * sd;
    let right = ci * (ym * su);
    assert(xm * sd * (xu * yu * xd) == (xm * xu) * (sd * xd * yu)) by (nonlinear_arith);
    assert(ai * xd * w == ai * (w * xd)) by (nonlinear_arith);
    assert(ci * (ym * su) * (xu * yu * xd) == ci * (ym * yu) * (su * xu) * xd) by (nonlinear_arith);
    assert(ci * (bi * yd) * (su * xu) * xd == ci * bi * (su * xu * yd * xd)) by (nonlinear_arith);
    lemma2_to64();
    if a <= c * b {
        lemma_scale(ai, ci * bi, w * xd);
        lemma_divide(left, right, z);
        lemma_nearest_within(x.m, y.m, p, c, s);
        rounding::lemma_shift_reaches(Bin { m: c, e: s }, q.m, q.e, -s);
        assert(rounding::reaches(Bin { m: c, e: 0 }, t.m, t.e));
        lemma_against_integer(t, c);
    }
    if a >= c * b {
        lemma_scale(ci * bi, ai, w * xd);
        lemma_divide(right, left, z);
        assert(rounding::ratio_reaches(x.m, y.m, c, s));
        rounding::lemma_nearest_reaches(x.m, y.m, p, c, s);
        rounding::lemma_shift_reaches(q, c, s, -s);
        assert(rounding::reaches(t, c, 0));
        lemma_against_integer(t, c);
    }
}

/// A product of two values that are both at least `f` is at least what can be
/// written of `f * f`.
pub proof fn lemma_product_reaches(x: Bin, y: Bin, f: nat, m: nat, e: nat, p: nat)
    requires
        p > 0,
        x.m > 0,
        y.m > 0,
        rounding::reaches(x, f, 0),
        rounding::reaches(y, f, 0),
        m <= pow2(p),
        m * pow2(e) <= f * f,
    ensures
        rounding::reaches(rounding::product(x, y, p), m, e as int),
{
    let t = e - x.e - y.e;
    let k = rounding::down(x.e) + rounding::down(y.e) + rounding::down(t) + rounding::up(t);
    rounding::lemma_common_scale(x, f, 0, k);
    rounding::lemma_common_scale(y, f, 0, k);
    let xs = pow2((x.e + k) as nat) as int;
    let ys = pow2((y.e + k) as nat) as int;
    let ks = pow2(k) as int;
    let xm = x.m as int;
    let ym = y.m as int;
    let fi = f as int;
    let mi = m as int;
    let es = pow2(e) as int;
    lemma_pow2_pos(k);
    assert((xm * xs) * (ym * ys) >= (fi * ks) * (fi * ks)) by (nonlinear_arith)
        requires
            xm * xs >= fi * ks,
            ym * ys >= fi * ks,
            fi >= 0,
            ks > 0,
    ;
    let base = (x.e + y.e + 2 * k - rounding::down(t)) as nat;
    let c = pow2(base) as int;
    let dn = pow2(rounding::down(t)) as int;
    let u = pow2(rounding::up(t)) as int;
    lemma_pow2_pos(base);
    lemma_pow2_adds((x.e + k) as nat, (y.e + k) as nat);
    lemma_pow2_adds(base, rounding::down(t));
    lemma_pow2_adds(base, rounding::up(t));
    lemma_pow2_adds(k, k);
    lemma_pow2_adds(e, k + k);
    assert(base + rounding::down(t) == (x.e + k) as nat + (y.e + k) as nat);
    assert(base + rounding::up(t) == e + (k + k));
    assert(c * dn == xs * ys);
    assert(c * u == es * (ks * ks));
    assert((xm * xs) * (ym * ys) == (xm * ym) * (xs * ys)) by (nonlinear_arith);
    assert((fi * ks) * (fi * ks) == (fi * fi) * (ks * ks)) by (nonlinear_arith);
    assert((fi * fi) * (ks * ks) >= (mi * es) * (ks * ks)) by (nonlinear_arith)
        requires
            mi * es <= fi * fi,
            ks > 0,
    ;
    assert((mi * es) * (ks * ks) == mi * (es * (ks * ks))) by (nonlinear_arith);
    assert((xm * ym) * (c * dn) == (xm * ym * dn) * c) by (nonlinear_arith);
    assert(mi * (c * u) == (mi * u) * c) by (nonlinear_arith);
    rounding::lemma_cancel(xm * ym * dn, mi * u, c);
    assert(xm * ym > 0) by (nonlinear_arith)
        requires
            xm > 0,
            ym > 0,
    ;
    rounding::lemma_nearest_reaches(x.m * y.m, 1, p, m, t);
    rounding::lemma_shift_reaches(rounding::nearest(x.m * y.m, 1, p), m, t, x.e + y.e);
}

/// A value that is at least `m * 2^e`, divided by one that is at most `o`, is at least
/// `f` where `f * o` is at most `m * 2^e`.
pub proof fn lemma_quotient_reaches(x: Bin, y: Bin, m: nat, e: nat, o: nat, f: nat, p: nat)
    requires
        p > 0,
        x.m > 0,
        y.m > 0,
        rounding::reaches(x, m, e as int),
        rounding::reaches(Bin { m: o, e: 0 }, y.m, y.e),
        f <= pow2(p),
        f * o <= m * pow2(e),
    ensures
        rounding::reaches(rounding::quotient(x, y, p), f, 0),
{
    let t = y.e - x.e;
    let k = rounding::down(x.e) + rounding::down(y.e) + rounding::down(t) + rounding::up(t);
    rounding::lemma_common_scale(x, m, e as int, k);
    rounding::lemma_common_scale(Bin { m: o, e: 0 }, y.m, y.e, k);
    let xs = pow2((x.e + k) as nat) as int;
    let ys = pow2((y.e + k) as nat) as int;
    let ks = pow2(k) as int;
    let xm = x.m as int;
    let ym = y.m as int;
    let fi = f as int;
    let mi = m as int;
    let oi = o as int;
    let es = pow2(e) as int;
    lemma_pow2_pos(k);
    lemma_pow2_adds(e, k);
    assert(mi * (es * ks) == (mi * es) * ks) by (nonlinear_arith);
    assert((mi * es) * ks >= (fi * oi) * ks) by (nonlinear_arith)
        requires
            fi * oi <= mi * es,
            ks > 0,
    ;
    assert((fi * oi) * ks == fi * (oi * ks)) by (nonlinear_arith);
    assert(fi * (oi * ks) >= fi * (ym * ys)) by (nonlinear_arith)
        requires
            oi * ks >= ym * ys,
            fi >= 0,
    ;
    let base = (x.e + k - rounding::down(t)) as nat;
    let c = pow2(base) as int;
    let dn = pow2(rounding::down(t)) as int;
    let u = pow2(rounding::up(t)) as int;
    lemma_pow2_pos(base);
    lemma_pow2_adds(base, rounding::down(t));
    lemma_pow2_adds(base, rounding::up(t));
    assert(base + rounding::down(t) == (x.e + k) as nat);
    assert(base + rounding::up(t) == (y.e + k) as nat);
    assert(xm * (c * dn) == (xm * dn) * c) by (nonlinear_arith);
    assert(fi * (ym * (c * u)) == (fi * (ym * u)) * c) by (nonlinear_arith);
    rounding::lemma_cancel(xm * dn, fi * (ym * u), c);
    rounding::lemma_nearest_reaches(x.m, y.m, p, f, t);
    rounding::lemma_shift_reaches(rounding::nearest(x.m, y.m, p), f, t, x.e - y.e);
}

/// A value that is at least an integer rounds to no less.
pub proof fn lemma_rounds_to_no_less(x: Bin, f: nat)
    requires
        rounding::reaches(x, f, 0),
    ensures
        rounding::to_even(x) >= f,
{
    lemma_against_integer(x, f);
    lemma_parts(x);
    let n = numer(x);
    let d = denom(x);
    let q = n / d;
    lemma_fundamental_div_mod(n, d);
    assert(q >= f) by (nonlinear_arith)
        requires
            n >= f * d,
            n == d * q + n % d,
            n % d < d,
            d > 0,
    ;
}

/// Number of bits behind the first one of a positive integer.
pub proof fn lemma_first_bit(n: nat) -> (e: nat)
    requires
        n > 0,
    ensures
        pow2(e) <= n < pow2(e + 1),
    decreases n,
{
    lemma2_to64();
    if n == 1 {
        0
    } else {
        let e = lemma_first_bit(n / 2);
        lemma_pow2_unfold(e + 1);
        lemma_pow2_unfold(e + 2);
        e + 1
    }
}

proof fn lemma_regrouped(h: int, v: int, dt: int, e: int, de: int, dz: int)
    ensures
        h * v * dt * (h * (e * de * dz)) == h * h * (v * e * dz) * (dt * de),
{
    let u = v * dt;
    let w = e * de * dz;
    assert(h * v * dt == h * u) by (nonlinear_arith)
        requires
            u == v * dt,
    ;
    assert(h * u * (h * w) == h * h * (u * w)) by (nonlinear_arith);
    assert(u * w == v * e * dz * (dt * de)) by (nonlinear_arith)
        requires
            u == v * dt,
            w == e * de * dz,
    ;
    let x = v * e * dz;
    let y = dt * de;
    assert(h * h * (x * y) == h * h * x * y) by (nonlinear_arith);
}

/// Three rounded steps, against the exact fraction, before the divisions.
proof fn lemma_three_steps(
    k: int,
    v: int,
    c: int,
    e: int,
    nt: int,
    dt: int,
    ne: int,
    de: int,
    nz: int,
    dz: int,
)
    requires
        k > 1,
        v >= 0,
        c > 0,
        e >= 0,
        nt >= 0,
        ne >= 0,
        nz >= 0,
        dt > 0,
        de > 0,
        dz > 0,
        (k - 1) * (k - 1) * v * dt <= k * (k + 1) * c * nt,
        k * (k - 1) * c * nt <= (k + 1) * (k + 1) * v * dt,
        (k - 1) * e * de <= k * ne,
        k * ne <= (k + 1) * e * de,
        (k - 1) * nt * ne * dz <= k * nz * dt * de,
        k * nz * dt * de <= (k + 1) * nt * ne * dz,
    ensures
        (k - 1) * (k - 1) * (k - 1) * (k - 1) * (v * e * dz) <= k * k * k * (k + 1) * (c * nz),
        k * k * k * (k - 1) * (c * nz) <= (k + 1) * (k + 1) * (k + 1) * (k + 1) * (v * e * dz),
{
    let unit = dt * de;
    assert(unit > 0) by (nonlinear_arith)
        requires
            dt > 0,
            de > 0,
            unit == dt * de,
    ;
    // From below.
    let a = (k - 1) * e * de * ((k - 1) * dz);
    assert(a >= 0) by (nonlinear_arith)
        requires
            k > 1,
            e >= 0,
            de > 0,
            dz > 0,
            a == (k - 1) * e * de * ((k - 1) * dz),
    ;
    lemma_scale((k - 1) * (k - 1) * v * dt, k * (k + 1) * c * nt, a);
    let b = k * (k + 1) * c * nt * ((k - 1) * dz);
    assert(b >= 0) by (nonlinear_arith)
        requires
            k > 1,
            c > 0,
            nt >= 0,
            dz > 0,
            b == k * (k + 1) * c * nt * ((k - 1) * dz),
    ;
    lemma_scale((k - 1) * e * de, k * ne, b);
    let g = k * k * (k + 1) * c;
    assert(g >= 0) by (nonlinear_arith)
        requires
            k > 1,
            c > 0,
            g == k * k * (k + 1) * c,
    ;
    lemma_scale((k - 1) * nt * ne * dz, k * nz * dt * de, g);
    let p = (k - 1) * (k - 1) * (k - 1) * (k - 1);
    let q = k * k * k * (k + 1);
    let hh = (k - 1) * (k - 1);
    assert(a == hh * (e * de * dz)) by (nonlinear_arith)
        requires
            a == (k - 1) * e * de * ((k - 1) * dz),
            hh == (k - 1) * (k - 1),
    ;
    assert(p == hh * hh) by (nonlinear_arith)
        requires
            p == (k - 1) * (k - 1) * (k - 1) * (k - 1),
            hh == (k - 1) * (k - 1),
    ;
    lemma_regrouped(hh, v, dt, e, de, dz);
    assert((k - 1) * (k - 1) * v * dt * a == p * (v * e * dz) * unit);
    assert(k * (k + 1) * c * nt * a == (k - 1) * e * de * b) by (nonlinear_arith)
        requires
            a == (k - 1) * e * de * ((k - 1) * dz),
            b == k * (k + 1) * c * nt * ((k - 1) * dz),
    ;
    assert(k * ne * b == (k - 1) * nt * ne * dz * g) by (nonlinear_arith)
        requires
            b == k * (k + 1) * c * nt * ((k - 1) * dz),
            g == k * k * (k + 1) * c,
    ;
    assert(k * nz * dt * de * g == q * (c * nz) * unit) by (nonlinear_arith)
        requires
            g == k * k * (k + 1) * c,
            q == k * k * k * (k + 1),
            unit == dt * de,
    ;
    lemma_divide(p * (v * e * dz), q * (c * nz), unit);
    // From above.
    let g2 = k * k * (k - 1) * c;
    assert(g2 >= 0) by (nonlinear_arith)
        requires
            k > 1,
            c > 0,
            g2 == k * k * (k - 1) * c,
    ;
    lemma_scale(k * nz * dt * de, (k + 1) * nt * ne * dz, g2);
    let b2 = k * (k - 1) * c * nt * ((k + 1) * dz);
    assert(b2 >= 0) by (nonlinear_arith)
        requires
            k > 1,
            c > 0,
            nt >= 0,
            dz > 0,
            b2 == k * (k - 1) * c * nt * ((k + 1) * dz),
    ;
    lemma_scale(k * ne, (k + 1) * e * de, b2);
    let a2 = (k + 1) * e * de * ((k + 1) * dz);
    assert(a2 >= 0) by (nonlinear_arith)
        requires
            k > 1,
            e >= 0,
            de > 0,
            dz > 0,
            a2 == (k + 1) * e * de * ((k + 1) * dz),
    ;
    lemma_scale(k * (k - 1) * c * nt, (k + 1) * (k + 1) * v * dt, a2);
    let p2 = (k + 1) * (k + 1) * (k + 1) * (k + 1);
    let q2 = k * k * k * (k - 1);
    assert(k * nz * dt * de * g2 == q2 * (c * nz) * unit) by (nonlinear_arith)
        requires
            g2 == k * k * (k - 1) * c,
            q2 == k * k * k * (k - 1),
            unit == dt * de,
    ;
    assert((k + 1) * nt * ne * dz * g2 == k * ne * b2) by (nonlinear_arith)
        requires
            b2 == k * (k - 1) * c * nt * ((k + 1) * dz),
            g2 == k * k * (k - 1) * c,
    ;
    assert((k + 1) * e * de * b2 == k * (k - 1) * c * nt * a2) by (nonlinear_arith)
        requires
            a2 == (k + 1) * e * de * ((k + 1) * dz),
            b2 == k * (k - 1) * c * nt * ((k + 1) * dz),
    ;
    let hh2 = (k + 1) * (k + 1);
    assert(a2 == hh2 * (e * de * dz)) by (nonlinear_arith)
        requires
            a2 == (k + 1) * e * de * ((k + 1) * dz),
            hh2 == (k + 1) * (k + 1),
    ;
    assert(p2 == hh2 * hh2) by (nonlinear_arith)
        requires
            p2 == (k + 1) * (k + 1) * (k + 1) * (k + 1),
            hh2 == (k + 1) * (k + 1),
    ;
    lemma_regrouped(hh2, v, dt, e, de, dz);
    assert((k + 1) * (k + 1) * v * dt * a2 == p2 * (v * e * dz) * unit);
    lemma_divide(q2 * (c * nz), p2 * (v * e * dz), unit);
}

/// In single precision, a fraction of an integer is exact but for one part in two
/// million.
pub proof fn lemma_single_fraction(v: nat, c: nat, e: nat)
    requires
        v > 0,
        c > 0,
        e > 0,
    ensures
        ({
            let z = rounding::product(
                rounding::quotient(rounding::nearest(v, 1, 24), rounding::nearest(c, 1, 24), 24),
                rounding::nearest(e, 1, 24),
                24,
            );
            &&& denom(z) > 0
            &&& numer(z) >= 0
            &&& 0x1f_ffff * (v * e * denom(z)) <= 0x20_0000 * (c * numer(z))
            &&& 0x20_0000 * (c * numer(z)) <= 0x20_0001 * (v * e * denom(z))
        }),
{
    lemma2_to64();
    let k: int = 0x100_0000;
    assert(pow2(24) == k);
    let t = rounding::quotient(rounding::nearest(v, 1, 24), rounding::nearest(c, 1, 24), 24);
    let s = rounding::nearest(e, 1, 24);
    let z = rounding::product(t, s, 24);
    lemma_ratio_error(v, c, 24);
    lemma_integer_error(e, 24);
    rounding::lemma_nearest_parts(e, 1, 24);
    lemma_parts(t);
    lemma_parts(s);
    lemma_parts(z);
    lemma_product_error(t, s, 24);
    lemma_three_steps(
        k,
        v as int,
        c as int,
        e as int,
        numer(t),
        denom(t),
        numer(s),
        denom(s),
        numer(z),
        denom(z),
    );
    let x = v * e * denom(z);
    let y = c * numer(z);
    assert(x >= 0 && y >= 0) by (nonlinear_arith)
        requires
            x == v * e * denom(z),
            y == c * numer(z),
            denom(z) > 0,
            numer(z) >= 0,
            v >= 0,
            e >= 0,
            c >= 0,
    ;
    let p: int = 0xff_ffffint * 0xff_ffffint * 0xff_ffffint * 0xff_ffffint;
    let q: int = 0x100_0000int * 0x100_0000int * 0x100_0000int * 0x100_0001int;
    let p2: int = 0x100_0001int * 0x100_0001int * 0x100_0001int * 0x100_0001int;
    let q2: int = 0x100_0000int * 0x100_0000int * 0x100_0000int * 0xff_ffffint;
    assert(p * x <= q * y);
    assert(q2 * y <= p2 * x);
    assert(0x1f_ffff * q <= 0x20_0000 * p);
    assert(0x20_0000 * p2 <= 0x20_0001 * q2);
    assert(0x1f_ffff * x <= 0x20_0000 * y) by (nonlinear_arith)
        requires
            p * x <= q * y,
            0x1f_ffff * q <= 0x20_0000 * p,
            p > 0,
            q > 0,
            x >= 0,
            y >= 0,
    ;
    assert(0x20_0000 * y <= 0x20_0001 * x) by (nonlinear_arith)
        requires
            q2 * y <= p2 * x,
            0x20_0000 * p2 <= 0x20_0001 * q2,
            p2 > 0,
            q2 > 0,
            x >= 0,
            y >= 0,
    ;
}

/// A bound with finer constants gives one with coarser constants.
pub proof fn lemma_weaker(p: int, q: int, a: int, b: int, x: int, y: int)
    requires
        p > 0,
        q > 0,
        x >= 0,
        y >= 0,
        b >= 0,
        p * x <= q * y,
        a * q <= b * p,
    ensures
        a * x <= b * y,
{
    lemma_scale(a * q, b * p, x);
    lemma_scale(p * x, q * y, b);
    assert(a * q * x == a * x * q) by (nonlinear_arith);
    assert(b * p * x == p * x * b) by (nonlinear_arith);
    assert(q * y * b == b * y * q) by (nonlinear_arith);
    lemma_divide(a * x, b * y, q);
}

/// Two bounds on lengths, one of them squared, give a bound on squares.
#[verifier::rlimit(40)]
pub proof fn lemma_squared(
    p: int,
    q: int,
    r: int,
    s: int,
    h: int,
    d: int,
    n: int,
    z: int,
    c: int,
    a: int,
)
    requires
        p >= 0,
        q >= 0,
        r >= 0,
        s >= 0,
        h >= 0,
        d > 0,
        n >= 0,
        z >= 0,
        c >= 0,
        a >= 0,
        p * h * d <= q * n * z,
        r * c * (n * n) <= s * a * (d * d),
    ensures
        p * p * r * (c * (h * h)) <= q * q * s * (a * (z * z)),
{
    let x = p * h * d;
    let y = q * n * z;
    assert(0 <= x && x * x <= y * y) by (nonlinear_arith)
        requires
            x == p * h * d,
            p >= 0,
            h >= 0,
            d > 0,
            x <= y,
    ;
    let rc = r * c;
    assert(rc >= 0) by (nonlinear_arith)
        requires
            rc == r * c,
            r >= 0,
            c >= 0,
    ;
    lemma_scale(x * x, y * y, rc);
    let qz = q * q * (z * z);
    assert(qz >= 0) by (nonlinear_arith)
        requires
            qz == q * q * (z * z),
            q >= 0,
            z >= 0,
    ;
    lemma_scale(r * c * (n * n), s * a * (d * d), qz);
    let dd = d * d;
    assert(dd > 0) by (nonlinear_arith)
        requires
            dd == d * d,
            d > 0,
    ;
    assert(x * x == (p * p) * (h * h) * dd) by (nonlinear_arith)
        requires
            x == p * h * d,
            dd == d * d,
    ;
    assert((p * p) * (h * h) * dd * rc == p * p * r * (c * (h * h)) * dd) by (nonlinear_arith)
        requires
            rc == r * c,
    ;
    assert(y * y == qz * (n * n)) by (nonlinear_arith)
        requires
            y == q * n * z,
            qz == q * q * (z * z),
    ;
    assert(qz * (n * n) * rc == r * c * (n * n) * qz) by (nonlinear_arith)
        requires
            rc == r * c,
    ;
    assert(s * a * dd * qz == q * q * s * (a * (z * z)) * dd) by (nonlinear_arith)
        requires
            qz == q * q * (z * z),
    ;
    lemma_divide(p * p * r * (c * (h * h)), q * q * s * (a * (z * z)), dd);
}

} // verus!

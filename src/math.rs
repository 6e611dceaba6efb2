use vstd::prelude::*;

verus! {

/// `UNIT` stands for 1.0 in every dimensionless fixed-point quantity.
pub const UNIT: i64 = 10_000;

/// Microseconds in a second.
pub const MICROS: i64 = 1_000_000;

/// Largest magnitude of a stored quantity (a coordinate, a speed, a rate or a
/// frame time), so that every product of two of them fits in `i64`.
pub const LIMIT: i64 = 0x7fff_ffff;

/// Quotient of `p` by `d > 0`, rounded toward zero.
pub open spec fn frac(p: int, d: int) -> int {
    if p >= 0 {
        p / d
    } else {
        -((-p) / d)
    }
}

pub open spec fn abs(x: int) -> int {
    if x >= 0 {
        x
    } else {
        -x
    }
}

pub open spec fn clamp(v: int, lo: int, hi: int) -> int {
    if v < lo {
        lo
    } else if v > hi {
        hi
    } else {
        v
    }
}

/// Clamps `v` into `[lo, hi]`.
pub fn clamp_i64(v: i64, lo: i64, hi: i64) -> (r: i64)
    requires
        lo <= hi,
    ensures
        r == clamp(v as int, lo as int, hi as int),
{
    if v < lo {
        lo
    } else if v > hi {
        hi
    } else {
        v
    }
}

/// Facts on rounding toward zero: the quotient keeps the sign of `p` and
/// `|q| * d <= |p| < (|q| + 1) * d`.
pub proof fn lemma_frac(p: int, d: int)
    requires
        d > 0,
    ensures
        abs(frac(p, d)) * d <= abs(p),
        abs(p) < (abs(frac(p, d)) + 1) * d,
        p >= 0 ==> frac(p, d) >= 0,
        p <= 0 ==> frac(p, d) <= 0,
        abs(frac(p, d)) == abs(p) / d,
{
    let a = abs(p);
    assert(a == d * (a / d) + a % d) by {
        vstd::arithmetic::div_mod::lemma_fundamental_div_mod(a, d);
    }
    assert(0 <= a % d < d) by {
        vstd::arithmetic::div_mod::lemma_mod_bound(a, d);
    }
    assert(a / d >= 0) by {
        vstd::arithmetic::div_mod::lemma_div_pos_is_pos(a, d);
    }
    assert((a / d) * d == d * (a / d)) by (nonlinear_arith);
    assert((a / d + 1) * d == d * (a / d) + d) by (nonlinear_arith);
}

/// `frac(a * b, d)` is no larger than `a` when `|b| <= d`.
pub proof fn lemma_frac_scale(a: int, b: int, d: int)
    requires
        d > 0,
        abs(b) <= d,
    ensures
        abs(frac(a * b, d)) <= abs(a),
{
    lemma_frac(a * b, d);
    assert(abs(a * b) == abs(a) * abs(b)) by (nonlinear_arith);
    assert(abs(a) * abs(b) <= abs(a) * d) by (nonlinear_arith)
        requires
            abs(b) <= d,
            abs(a) >= 0,
    ;
    let q = abs(frac(a * b, d));
    assert(q <= abs(a)) by (nonlinear_arith)
        requires
            q * d <= abs(a) * d,
            d > 0,
    ;
}

/// A point or a velocity in space; `y` is up.
#[derive(Clone, Copy, Debug, PartialEq, Eq, Structural)]
pub struct Vec3 {
    pub x: i64,
    pub y: i64,
    pub z: i64,
}

/// `p / d`, rounded toward zero.
pub fn div_trunc(p: i128, d: i64) -> (r: i64)
    requires
        d > 0,
        p > i128::MIN,
        -LIMIT * LIMIT <= frac(p as int, d as int) <= LIMIT * LIMIT,
    ensures
        r == frac(p as int, d as int),
{
    if p >= 0 {
        (p / (d as i128)) as i64
    } else {
        let q: i128 = (-p) / (d as i128);
        -(q as i64)
    }
}

/// `a * b / d`, rounded toward zero.
pub fn mul_div(a: i64, b: i64, d: i64) -> (r: i64)
    requires
        d > 0,
        -LIMIT * LIMIT <= frac(a * b, d as int) <= LIMIT * LIMIT,
    ensures
        r == frac(a * b, d as int),
{
    assert(-0x4000_0000_0000_0000_0000_0000_0000_0000 <= (a as int) * (b as int)
        <= 0x4000_0000_0000_0000_0000_0000_0000_0000) by (nonlinear_arith)
        requires
            -0x8000_0000_0000_0000 <= a <= 0x7fff_ffff_ffff_ffff,
            -0x8000_0000_0000_0000 <= b <= 0x7fff_ffff_ffff_ffff,
    ;
    div_trunc((a as i128) * (b as i128), d)
}

/// Largest magnitude of a velocity component between the stages of an update.
pub const BIG: i64 = 0x7fff_ffff_ffff;

/// `r` is the least non-negative integer whose square reaches `n`.
pub open spec fn is_ceil_sqrt(n: int, r: int) -> bool {
    &&& r >= 0
    &&& r * r >= n
    &&& (r == 0 || (r - 1) * (r - 1) < n)
}

/// The square root of `n >= 0`, rounded up.
pub open spec fn ceil_sqrt(n: int) -> int {
    choose|r: int| is_ceil_sqrt(n, r)
}

proof fn lemma_ceil_sqrt_unique(n: int, r1: int, r2: int)
    requires
        is_ceil_sqrt(n, r1),
        is_ceil_sqrt(n, r2),
    ensures
        r1 == r2,
{
    if r1 < r2 {
        assert(r1 * r1 <= (r2 - 1) * (r2 - 1)) by (nonlinear_arith)
            requires
                0 <= r1 <= r2 - 1,
        ;
    } else if r2 < r1 {
        assert(r2 * r2 <= (r1 - 1) * (r1 - 1)) by (nonlinear_arith)
            requires
                0 <= r2 <= r1 - 1,
        ;
    }
}

/// Once a witness is known, `ceil_sqrt` names it.
pub proof fn lemma_ceil_sqrt_is(n: int, r: int)
    requires
        is_ceil_sqrt(n, r),
    ensures
        ceil_sqrt(n) == r,
{
    lemma_ceil_sqrt_unique(n, ceil_sqrt(n), r);
}

/// Any `m >= 0` whose square reaches `n` is at least `ceil_sqrt(n)`.
pub proof fn lemma_ceil_sqrt_least(n: int, r: int, m: int)
    requires
        is_ceil_sqrt(n, r),
        m >= 0,
        m * m >= n,
    ensures
        r <= m,
{
    if m < r {
        assert(m * m <= (r - 1) * (r - 1)) by (nonlinear_arith)
            requires
                0 <= m <= r - 1,
        ;
    }
}

/// The square root of `n`, rounded up, by bisection.
pub fn ceil_sqrt_i128(n: i128) -> (r: i64)
    requires
        0 <= n <= 0x1_0000_0000_0000_0000_0000_0000,
    ensures
        is_ceil_sqrt(n as int, r as int),
        r == ceil_sqrt(n as int),
        0 <= r <= 0x1_0000_0000_0000,
{
    if n == 0 {
        proof {
            lemma_ceil_sqrt_is(0, 0);
        }
        return 0;
    }
    let mut lo: i128 = 0;
    let mut hi: i128 = 0x1_0000_0000_0000;
    assert(hi * hi == 0x1_0000_0000_0000_0000_0000_0000);
    while hi - lo > 1
        invariant
            0 <= lo < hi <= 0x1_0000_0000_0000,
            lo * lo < n,
            hi * hi >= n,
        decreases hi - lo,
    {
        let mid: i128 = lo + (hi - lo) / 2;
        assert(mid * mid <= 0x1_0000_0000_0000_0000_0000_0000) by (nonlinear_arith)
            requires
                0 <= mid <= 0x1_0000_0000_0000,
        ;
        if mid * mid >= n {
            hi = mid;
        } else {
            lo = mid;
        }
    }
    proof {
        assert(hi - 1 == lo);
        lemma_ceil_sqrt_is(n as int, hi as int);
    }
    hi as i64
}

/// Binary angle units in one revolution.
pub const FULL_TURN: i64 = 65536;

/// Binary angle units in half a revolution.
pub const HALF_TURN: i64 = 32768;

/// Binary angle units in a quarter of a revolution.
pub const QUARTER_TURN: i64 = 16384;

pub proof fn lemma_abs_mul(a: int, b: int)
    ensures
        abs(a * b) == abs(a) * abs(b),
{
    if a >= 0 && b >= 0 {
        assert(a * b >= 0) by (nonlinear_arith)
            requires
                a >= 0,
                b >= 0,
        ;
    } else if a >= 0 {
        assert(a * b <= 0 && a * (-b) == -(a * b)) by (nonlinear_arith)
            requires
                a >= 0,
                b < 0,
        ;
    } else if b >= 0 {
        assert(a * b <= 0 && (-a) * b == -(a * b)) by (nonlinear_arith)
            requires
                a < 0,
                b >= 0,
        ;
    } else {
        assert(a * b > 0 && (-a) * (-b) == a * b) by (nonlinear_arith)
            requires
                a < 0,
                b < 0,
        ;
    }
}

/// A quotient whose numerator is at most `k` times its denominator is at most `k`.
pub proof fn lemma_div_le(num: int, den: int, k: int)
    requires
        den > 0,
        0 <= num <= k * den,
    ensures
        0 <= num / den <= k,
{
    vstd::arithmetic::div_mod::lemma_fundamental_div_mod(num, den);
    vstd::arithmetic::div_mod::lemma_mod_bound(num, den);
    vstd::arithmetic::div_mod::lemma_div_pos_is_pos(num, den);
    let q = num / den;
    let r = num % den;
    assert(q <= k) by (nonlinear_arith)
        requires
            num == den * q + r,
            0 <= r,
            num <= k * den,
            den > 0,
    ;
}

/// Bhaskara's rational approximation of the sine of a binary angle, scaled by `UNIT`.
pub open spec fn sine(a: int) -> int {
    let x = a % (HALF_TURN as int);
    let p = x * (HALF_TURN - x);
    let mag = (16 * p * UNIT) / (5 * HALF_TURN * HALF_TURN - 4 * p);
    if a < HALF_TURN {
        mag
    } else {
        -mag
    }
}

/// Cosine counterpart of `sine`.
pub open spec fn cosine(a: int) -> int {
    sine((a + QUARTER_TURN) % (FULL_TURN as int))
}

pub proof fn lemma_sine_bound(a: int)
    requires
        0 <= a < FULL_TURN,
    ensures
        -UNIT <= sine(a) <= UNIT,
{
    let h = HALF_TURN as int;
    let x = a % h;
    assert(0 <= x < h);
    let p = x * (h - x);
    assert(0 <= p && 4 * p <= h * h) by (nonlinear_arith)
        requires
            0 <= x < h,
            p == x * (h - x),
    ;
    lemma_div_le(16 * p * UNIT, 5 * h * h - 4 * p, UNIT as int);
}

/// Sine of a binary angle in `[0, FULL_TURN)`, scaled by `UNIT`.
pub fn sine_of(a: i64) -> (r: i64)
    requires
        0 <= a < FULL_TURN,
    ensures
        r == sine(a as int),
        -UNIT <= r <= UNIT,
{
    proof {
        lemma_sine_bound(a as int);
    }
    let x: i64 = a % HALF_TURN;
    assert(x * (HALF_TURN - x) <= HALF_TURN * HALF_TURN) by (nonlinear_arith)
        requires
            0 <= x < HALF_TURN,
    ;
    let p: i64 = x * (HALF_TURN - x);
    let mag: i64 = (16 * p * UNIT) / (5 * HALF_TURN * HALF_TURN - 4 * p);
    if a < HALF_TURN {
        mag
    } else {
        -mag
    }
}

/// Cosine of a binary angle in `[0, FULL_TURN)`, scaled by `UNIT`.
pub fn cosine_of(a: i64) -> (r: i64)
    requires
        0 <= a < FULL_TURN,
    ensures
        r == cosine(a as int),
        -UNIT <= r <= UNIT,
{
    sine_of((a + QUARTER_TURN) % FULL_TURN)
}

/// Unit vector, scaled by `UNIT`, in which a body with yaw `a` faces: local
/// forward (negative z) turned by `a` about the vertical axis, then
/// normalised so that its length never exceeds `UNIT`.
pub open spec fn heading(a: int) -> (int, int) {
    let s = sine(a);
    let c = cosine(a);
    let len = ceil_sqrt(s * s + c * c);
    if len == 0 {
        (0, -UNIT as int)
    } else {
        (frac(-s * UNIT, len), frac(-c * UNIT, len))
    }
}

/// Squared length of a planar vector.
pub open spec fn norm2(x: int, z: int) -> int {
    x * x + z * z
}

proof fn lemma_normalized(s: int, c: int, len: int, fx: int, fz: int)
    requires
        is_ceil_sqrt(s * s + c * c, len),
        len > 0,
        fx == frac(-s * UNIT, len),
        fz == frac(-c * UNIT, len),
    ensures
        norm2(fx, fz) <= UNIT * UNIT,
{
    lemma_frac(-s * UNIT, len);
    lemma_frac(-c * UNIT, len);
    let u = UNIT as int;
    lemma_abs_mul(-s, u);
    lemma_abs_mul(-c, u);
    let ax = abs(fx);
    let az = abs(fz);
    assert(ax * ax * (len * len) <= s * s * (u * u)) by (nonlinear_arith)
        requires
            ax * len <= abs(s) * u,
            ax >= 0,
            len > 0,
            u > 0,
    ;
    assert(az * az * (len * len) <= c * c * (u * u)) by (nonlinear_arith)
        requires
            az * len <= abs(c) * u,
            az >= 0,
            len > 0,
            u > 0,
    ;
    assert(ax * ax + az * az <= u * u) by (nonlinear_arith)
        requires
            ax * ax * (len * len) <= s * s * (u * u),
            az * az * (len * len) <= c * c * (u * u),
            len * len >= s * s + c * c,
            len > 0,
    ;
    lemma_abs_mul(fx, fx);
    lemma_abs_mul(fz, fz);
}

pub proof fn lemma_heading_bound(a: int)
    requires
        0 <= a < FULL_TURN,
    ensures
        norm2(heading(a).0, heading(a).1) <= UNIT * UNIT,
        -UNIT <= heading(a).0 <= UNIT,
        -UNIT <= heading(a).1 <= UNIT,
{
    let s = sine(a);
    let c = cosine(a);
    lemma_sine_bound(a);
    lemma_sine_bound((a + QUARTER_TURN) % (FULL_TURN as int));
    let n = s * s + c * c;
    let len = ceil_sqrt(n);
    if len != 0 {
        // the squared length is small enough for a root to exist
        assert(0 <= n <= 2 * UNIT * UNIT) by (nonlinear_arith)
            requires
                -UNIT <= s <= UNIT,
                -UNIT <= c <= UNIT,
                n == s * s + c * c,
        ;
        assert(2 * UNIT * UNIT <= 0x1_0000_0000_0000_0000_0000_0000);
        lemma_ceil_sqrt_exists(n);
        lemma_normalized(s, c, len, heading(a).0, heading(a).1);
    }
    let (fx, fz) = heading(a);
    assert(fx * fx <= UNIT * UNIT && fz * fz <= UNIT * UNIT) by (nonlinear_arith)
        requires
            fx * fx + fz * fz <= UNIT * UNIT,
    ;
    assert(-UNIT <= fx <= UNIT) by (nonlinear_arith)
        requires
            fx * fx <= UNIT * UNIT,
    ;
    assert(-UNIT <= fz <= UNIT) by (nonlinear_arith)
        requires
            fz * fz <= UNIT * UNIT,
    ;
}

/// `ceil_sqrt(n)` meets its definition for every `n` up to the bisection bound.
pub proof fn lemma_ceil_sqrt_exists(n: int)
    requires
        0 <= n <= 0x1_0000_0000_0000_0000_0000_0000,
    ensures
        is_ceil_sqrt(n, ceil_sqrt(n)),
{
    if n == 0 {
        lemma_ceil_sqrt_is(0, 0);
    } else {
        lemma_ceil_sqrt_search(n, 0, 0x1_0000_0000_0000);
    }
}

proof fn lemma_ceil_sqrt_search(n: int, lo: int, hi: int)
    requires
        0 <= lo < hi,
        lo * lo < n <= hi * hi,
    ensures
        is_ceil_sqrt(n, ceil_sqrt(n)),
    decreases hi - lo,
{
    if hi - lo == 1 {
        lemma_ceil_sqrt_is(n, hi);
    } else {
        let mid = lo + (hi - lo) / 2;
        if mid * mid >= n {
            lemma_ceil_sqrt_search(n, lo, mid);
        } else {
            lemma_ceil_sqrt_search(n, mid, hi);
        }
    }
}

/// A quotient whose numerator is below `k` times its denominator is below `k`.
pub proof fn lemma_div_lt(num: int, den: int, k: int)
    requires
        den > 0,
        0 <= num < k * den,
    ensures
        0 <= num / den < k,
{
    vstd::arithmetic::div_mod::lemma_fundamental_div_mod(num, den);
    vstd::arithmetic::div_mod::lemma_mod_bound(num, den);
    vstd::arithmetic::div_mod::lemma_div_pos_is_pos(num, den);
    let q = num / den;
    let r = num % den;
    assert(q < k) by (nonlinear_arith)
        requires
            num == den * q + r,
            0 <= r,
            num < k * den,
            den > 0,
    ;
}

/// Rounding toward zero by `d >= 1` never grows a magnitude.
pub proof fn lemma_frac_le(p: int, d: int)
    requires
        d >= 1,
    ensures
        abs(frac(p, d)) <= abs(p),
{
    lemma_frac(p, d);
    let q = abs(frac(p, d));
    assert(q <= abs(p)) by (nonlinear_arith)
        requires
            q * d <= abs(p),
            q >= 0,
            d >= 1,
    ;
}

/// Heading of a binary angle in `[0, FULL_TURN)`; see `heading`.
pub fn heading_of(a: i64) -> (r: (i64, i64))
    requires
        0 <= a < FULL_TURN,
    ensures
        r.0 == heading(a as int).0,
        r.1 == heading(a as int).1,
        norm2(r.0 as int, r.1 as int) <= UNIT * UNIT,
        -UNIT <= r.0 <= UNIT,
        -UNIT <= r.1 <= UNIT,
{
    proof {
        lemma_heading_bound(a as int);
    }
    let s = sine_of(a);
    let c = cosine_of(a);
    assert(0 <= s * s <= UNIT * UNIT && 0 <= c * c <= UNIT * UNIT) by (nonlinear_arith)
        requires
            -UNIT <= s <= UNIT,
            -UNIT <= c <= UNIT,
    ;
    let n: i128 = (s as i128) * (s as i128) + (c as i128) * (c as i128);
    let len = ceil_sqrt_i128(n);
    if len == 0 {
        (0, -UNIT)
    } else {
        proof {
            lemma_frac_le(-s * UNIT, len as int);
            lemma_frac_le(-c * UNIT, len as int);
            lemma_abs_mul(-s as int, UNIT as int);
            lemma_abs_mul(-c as int, UNIT as int);
        }
        (mul_div(-s, UNIT, len), mul_div(-c, UNIT, len))
    }
}

/// Largest exponent, scaled by `UNIT`, that a smoothing weight tells apart:
/// past `e^(-100)` every weight is as close to one as `UNIT` can show.
pub const EXPONENT_CAP: i64 = 1_000_000;

/// Exponential smoothing weight `1 - e^(-rate * dt)`, scaled by `UNIT`, with
/// `e^x` taken to its series up to the fourth power: with `x` the exponent
/// scaled by `UNIT` and capped at `EXPONENT_CAP`, the weight is
/// `1 - 1 / (1 + x + x^2/2 + x^3/6 + x^4/24)` in real terms. `rate` is in
/// `UNIT` per second, `dt` in microseconds.
pub open spec fn blend(rate: int, dt: int) -> int {
    let e = (rate * dt) / (MICROS as int);
    let x = if e > EXPONENT_CAP {
        EXPONENT_CAP as int
    } else {
        e
    };
    let u = UNIT as int;
    let rest = 24 * x * u * u * u + 12 * x * x * u * u + 4 * x * x * x * u + x * x * x * x;
    (u * rest) / (24 * u * u * u * u + rest)
}

proof fn lemma_blend_terms(x: int, u: int, rest: int)
    requires
        0 <= x <= EXPONENT_CAP,
        u == UNIT,
        rest == 24 * x * u * u * u + 12 * x * x * u * u + 4 * x * x * x * u + x * x * x * x,
    ensures
        0 <= rest <= 0x10_0000_0000_0000_0000_0000,
        x == 0 ==> rest == 0,
{
    assert(0 <= x * x <= 1_000_000_000_000) by (nonlinear_arith)
        requires
            0 <= x <= 1_000_000,
    ;
    assert(0 <= x * x * x <= 1_000_000_000_000_000_000) by (nonlinear_arith)
        requires
            0 <= x <= 1_000_000,
            0 <= x * x <= 1_000_000_000_000,
    ;
    assert(0 <= x * x * x * x <= 1_000_000_000_000_000_000_000_000) by (nonlinear_arith)
        requires
            0 <= x <= 1_000_000,
            0 <= x * x * x <= 1_000_000_000_000_000_000,
    ;
    assert(0 <= 24 * x * u * u * u <= 24_000_000_000_000_000_000) by (nonlinear_arith)
        requires
            0 <= x <= 1_000_000,
            u == 10_000,
    ;
    assert(0 <= 12 * x * x * u * u <= 1_200_000_000_000_000_000_000) by (nonlinear_arith)
        requires
            0 <= x * x <= 1_000_000_000_000,
            u == 10_000,
    ;
    assert(0 <= 4 * x * x * x * u <= 40_000_000_000_000_000_000_000) by (nonlinear_arith)
        requires
            0 <= x * x * x <= 1_000_000_000_000_000_000,
            u == 10_000,
    ;
}

/// A smoothing weight lies in `[0, UNIT)` and is zero over no time.
pub proof fn lemma_blend_bounds(rate: int, dt: int)
    requires
        0 <= rate <= LIMIT,
        0 <= dt <= LIMIT,
    ensures
        0 <= blend(rate, dt) < UNIT,
        dt == 0 ==> blend(rate, dt) == 0,
{
    assert(0 <= rate * dt) by (nonlinear_arith)
        requires
            0 <= rate,
            0 <= dt,
    ;
    let e = (rate * dt) / (MICROS as int);
    let x = if e > EXPONENT_CAP {
        EXPONENT_CAP as int
    } else {
        e
    };
    let u = UNIT as int;
    let rest = 24 * x * u * u * u + 12 * x * x * u * u + 4 * x * x * x * u + x * x * x * x;
    lemma_blend_terms(x, u, rest);
    let den = 24 * u * u * u * u + rest;
    assert(u * rest < u * den) by (nonlinear_arith)
        requires
            rest >= 0,
            u == 10_000,
            den == 24 * u * u * u * u + rest,
    ;
    assert(u * rest >= 0) by (nonlinear_arith)
        requires
            rest >= 0,
            u == 10_000,
    ;
    lemma_div_lt(u * rest, den, u);
    if dt == 0 {
        assert(rate * dt == 0);
    }
}

/// The smoothing weight of `rate` over `dt`; see `blend`.
pub fn blend_of(rate: i64, dt: i64) -> (r: i64)
    requires
        0 <= rate <= LIMIT,
        0 <= dt <= LIMIT,
    ensures
        r == blend(rate as int, dt as int),
        0 <= r < UNIT,
        dt == 0 ==> r == 0,
{
    proof {
        lemma_blend_bounds(rate as int, dt as int);
    }
    assert(0 <= rate * dt <= LIMIT * LIMIT) by (nonlinear_arith)
        requires
            0 <= rate <= LIMIT,
            0 <= dt <= LIMIT,
    ;
    let e: i128 = ((rate as i128) * (dt as i128)) / (MICROS as i128);
    let x: i128 = if e > EXPONENT_CAP as i128 {
        EXPONENT_CAP as i128
    } else {
        e
    };
    let u: i128 = UNIT as i128;
    proof {
        lemma_blend_terms(x as int, u as int, 24 * x * u * u * u + 12 * x * x * u * u + 4 * x * x
            * x * u + x * x * x * x);
    }
    assert(0 <= x * x <= 1_000_000_000_000) by (nonlinear_arith)
        requires
            0 <= x <= 1_000_000,
    ;
    let x2: i128 = x * x;
    assert(0 <= x2 * x <= 1_000_000_000_000_000_000) by (nonlinear_arith)
        requires
            0 <= x <= 1_000_000,
            0 <= x2 <= 1_000_000_000_000,
    ;
    let x3: i128 = x2 * x;
    assert(0 <= x3 * x <= 1_000_000_000_000_000_000_000_000) by (nonlinear_arith)
        requires
            0 <= x <= 1_000_000,
            0 <= x3 <= 1_000_000_000_000_000_000,
    ;
    let x4: i128 = x3 * x;
    assert(24 * x * u * u * u + 12 * x * x * u * u + 4 * x * x * x * u + x * x * x * x == 24 * x
        * u * u * u + 12 * x2 * u * u + 4 * x3 * u + x4) by (nonlinear_arith)
        requires
            x2 == x * x,
            x3 == x2 * x,
            x4 == x3 * x,
    ;
    let rest: i128 = 24 * x * u * u * u + 12 * x2 * u * u + 4 * x3 * u + x4;
    ((u * rest) / (24 * u * u * u * u + rest)) as i64
}

} // verus!

use vstd::prelude::*;

use crate::input::PlayerInput;
use crate::math::{
    abs, blend, blend_of, ceil_sqrt, ceil_sqrt_i128, clamp, clamp_i64, div_trunc, frac, heading,
    heading_of, is_ceil_sqrt, lemma_abs_mul, lemma_blend_bounds, lemma_ceil_sqrt_exists,
    lemma_ceil_sqrt_least, lemma_frac, lemma_frac_le, lemma_frac_scale, lemma_heading_bound,
    mul_div, norm2, Vec3, BIG, FULL_TURN, LIMIT, MICROS, UNIT,
};

verus! {

/// Turn rates (binary angle units per second) at or below this are no turn.
pub const TURN_EPSILON: i64 = 10;

/// A throttle below this (scaled by `UNIT`) is no throttle, and brakes.
pub const THROTTLE_EPSILON: i64 = 100;

/// Throttle or turn input above this (scaled by `UNIT`) turns the visual.
pub const VISUAL_EPSILON: i64 = 500;

/// Largest velocity component right after thrust.
pub const THRUST_BOUND: i64 = 0x0fff_ffff_ffff;

/// Tuning of the player's locomotion.
///
/// Speeds are in millimetres per second, `acceleration` and `braking` in
/// millimetres per second squared, `turn_speed` in binary angle units per
/// second, the rates `yaw_lerp_speed`, `lateral_damping` and `drag` in `UNIT`
/// per second, and `radius` in millimetres.
#[derive(Clone, Copy, Debug, PartialEq, Eq, Structural)]
pub struct PlayerController {
    pub walk_speed: i64,
    pub sprint_speed: i64,
    pub acceleration: i64,
    pub braking: i64,
    pub yaw_lerp_speed: i64,
    pub turn_speed: i64,
    pub lateral_damping: i64,
    pub drag: i64,
    pub radius: i64,
}

impl PlayerController {
    /// Every rate non-negative, both speeds positive, all within `LIMIT`.
    pub open spec fn wf(&self) -> bool {
        &&& 0 < self.walk_speed <= LIMIT
        &&& 0 < self.sprint_speed <= LIMIT
        &&& 0 <= self.acceleration <= LIMIT
        &&& 0 <= self.braking <= LIMIT
        &&& 0 <= self.yaw_lerp_speed <= LIMIT
        &&& 0 <= self.turn_speed <= LIMIT
        &&& 0 <= self.lateral_damping <= LIMIT
        &&& 0 <= self.drag <= LIMIT
        &&& 0 <= self.radius <= LIMIT
    }

    /// The top speed allowed under the given sprint flag.
    pub open spec fn max_speed(&self, sprint: bool) -> int {
        if sprint {
            self.sprint_speed as int
        } else {
            self.walk_speed as int
        }
    }

    /// The standard tuning: walk at 7.5 m/s, sprint at 12.5 m/s.
    pub fn new() -> (r: PlayerController)
        ensures
            r.wf(),
            r.walk_speed == 7_500,
            r.sprint_speed == 12_500,
            r.acceleration == 30_000,
            r.braking == 36_000,
            r.yaw_lerp_speed == 120_000,
            r.turn_speed == 58_410,
            r.lateral_damping == 100_000,
            r.drag == 15_000,
            r.radius == 600,
    {
        PlayerController {
            walk_speed: 7_500,
            sprint_speed: 12_500,
            acceleration: 30_000,
            braking: 36_000,
            yaw_lerp_speed: 120_000,
            turn_speed: 58_410,
            lateral_damping: 100_000,
            drag: 15_000,
            radius: 600,
        }
    }
}

/// The direction the player means to move in, as a binary angle.
#[derive(Clone, Copy, Debug, PartialEq, Eq, Structural)]
pub struct PlayerFacing {
    pub yaw: i64,
}

impl PlayerFacing {
    /// The yaw is wrapped into one revolution.
    pub open spec fn wf(&self) -> bool {
        0 <= self.yaw < FULL_TURN
    }
}

/// Steering input: the sideways axis plus the turn axis, within `[-UNIT, UNIT]`.
pub open spec fn turn_input(input: PlayerInput) -> int {
    clamp(input.movement_x + input.yaw_input, -UNIT as int, UNIT as int)
}

/// Throttle input within `[-UNIT, UNIT]`.
pub open spec fn throttle(input: PlayerInput) -> int {
    clamp(input.movement_y as int, -UNIT as int, UNIT as int)
}

/// The yaw after turning at `turn_input` of `turn_speed` for `dt`.
pub open spec fn turned_yaw(yaw: int, turn: int, turn_speed: int, dt: int) -> int {
    let rate = frac(turn * turn_speed, UNIT as int);
    if abs(rate) > TURN_EPSILON {
        (yaw + frac(rate * dt, MICROS as int)) % (FULL_TURN as int)
    } else {
        yaw
    }
}

proof fn lemma_neg_mod(t: int, f: int, r: int)
    requires
        f > 0,
        t < 0,
        r == (-t) % f,
    ensures
        t % f == (if r == 0 { 0 } else { f - r }),
{
    vstd::arithmetic::div_mod::lemma_fundamental_div_mod(-t, f);
    vstd::arithmetic::div_mod::lemma_mod_bound(-t, f);
    let q = (-t) / f;
    assert(-t == f * q + r);
    if r == 0 {
        assert(t == (-q) * f + 0) by (nonlinear_arith)
            requires
                -t == f * q,
        ;
        vstd::arithmetic::div_mod::lemma_fundamental_div_mod_converse(t, f, -q, 0);
    } else {
        assert(t == (-q - 1) * f + (f - r)) by (nonlinear_arith)
            requires
                -t == f * q + r,
        ;
        vstd::arithmetic::div_mod::lemma_fundamental_div_mod_converse(t, f, -q - 1, f - r);
    }
}

fn turn_yaw(yaw: i64, turn: i64, turn_speed: i64, dt: i64) -> (r: i64)
    requires
        0 <= yaw < FULL_TURN,
        -UNIT <= turn <= UNIT,
        0 <= turn_speed <= LIMIT,
        0 <= dt <= LIMIT,
    ensures
        r == turned_yaw(yaw as int, turn as int, turn_speed as int, dt as int),
        0 <= r < FULL_TURN,
{
    proof {
        lemma_frac_scale(turn_speed as int, turn as int, UNIT as int);
        assert(turn * turn_speed == turn_speed * turn) by (nonlinear_arith);
    }
    let rate = mul_div(turn, turn_speed, UNIT);
    if rate > TURN_EPSILON || rate < -TURN_EPSILON {
        proof {
            lemma_frac(rate * dt, MICROS as int);
            assert(abs(rate * dt) <= LIMIT * LIMIT) by (nonlinear_arith)
                requires
                    -LIMIT <= rate <= LIMIT,
                    0 <= dt <= LIMIT,
            ;
        }
        let delta = mul_div(rate, dt, MICROS);
        let t = yaw + delta;
        if t >= 0 {
            t % FULL_TURN
        } else {
            let r = (-t) % FULL_TURN;
            proof {
                lemma_neg_mod(t as int, FULL_TURN as int, r as int);
            }
            if r == 0 {
                0
            } else {
                FULL_TURN - r
            }
        }
    } else {
        yaw
    }
}

/// Velocity after thrust `throttle` of `acceleration` along `(fx, fz)` for `dt`.
pub open spec fn thrust(
    v: (int, int),
    f: (int, int),
    throttle: int,
    acceleration: int,
    dt: int,
) -> (int, int) {
    let dv = frac(throttle * frac(acceleration * dt, MICROS as int), UNIT as int);
    (v.0 + frac(f.0 * dv, UNIT as int), v.1 + frac(f.1 * dv, UNIT as int))
}

fn apply_thrust(
    vx: i64,
    vz: i64,
    fx: i64,
    fz: i64,
    throttle: i64,
    acceleration: i64,
    dt: i64,
) -> (r: (i64, i64))
    requires
        -LIMIT <= vx <= LIMIT,
        -LIMIT <= vz <= LIMIT,
        -UNIT <= fx <= UNIT,
        -UNIT <= fz <= UNIT,
        -UNIT <= throttle <= UNIT,
        0 <= acceleration <= LIMIT,
        0 <= dt <= LIMIT,
    ensures
        (r.0 as int, r.1 as int) == thrust(
            (vx as int, vz as int),
            (fx as int, fz as int),
            throttle as int,
            acceleration as int,
            dt as int,
        ),
        -THRUST_BOUND <= r.0 <= THRUST_BOUND,
        -THRUST_BOUND <= r.1 <= THRUST_BOUND,
{
    assert(0 <= acceleration * dt <= LIMIT * LIMIT) by (nonlinear_arith)
        requires
            0 <= acceleration <= LIMIT,
            0 <= dt <= LIMIT,
    ;
    let gain = mul_div(acceleration, dt, MICROS);
    assert(0 <= gain <= 5_000_000_000_000);
    proof {
        lemma_frac_scale(gain as int, throttle as int, UNIT as int);
        assert(throttle * gain == gain * throttle) by (nonlinear_arith);
    }
    let dv = mul_div(throttle, gain, UNIT);
    proof {
        lemma_frac_scale(dv as int, fx as int, UNIT as int);
        lemma_frac_scale(dv as int, fz as int, UNIT as int);
        assert(fx * dv == dv * fx && fz * dv == dv * fz) by (nonlinear_arith);
    }
    let ax = mul_div(fx, dv, UNIT);
    let az = mul_div(fz, dv, UNIT);
    (vx + ax, vz + az)
}

/// Largest squared speed between the stages of an update.
pub const NORM_BOUND: i128 = 0x1ff_ffff_ffff_ffff_ffff_ffff;

/// A planar velocity within the bounds that every stage keeps.
pub open spec fn bounded(v: (int, int)) -> bool {
    norm2(v.0, v.1) <= NORM_BOUND
}

proof fn lemma_bounded_parts(x: int, z: int)
    requires
        norm2(x, z) <= NORM_BOUND,
    ensures
        -BIG <= x <= BIG,
        -BIG <= z <= BIG,
        0 <= x * x <= NORM_BOUND,
        0 <= z * z <= NORM_BOUND,
{
    assert(0 <= x * x && 0 <= z * z) by (nonlinear_arith);
    assert(-BIG <= x <= BIG) by (nonlinear_arith)
        requires
            x * x <= NORM_BOUND,
    ;
    assert(-BIG <= z <= BIG) by (nonlinear_arith)
        requires
            z * z <= NORM_BOUND,
    ;
}

proof fn lemma_thrust_bounded(x: int, z: int)
    requires
        -THRUST_BOUND <= x <= THRUST_BOUND,
        -THRUST_BOUND <= z <= THRUST_BOUND,
    ensures
        norm2(x, z) <= NORM_BOUND,
{
    assert(norm2(x, z) <= NORM_BOUND) by (nonlinear_arith)
        requires
            -THRUST_BOUND <= x <= THRUST_BOUND,
            -THRUST_BOUND <= z <= THRUST_BOUND,
    ;
}

proof fn lemma_sq_abs(x: int)
    ensures
        abs(x) * abs(x) == x * x,
{
    if x < 0 {
        assert((-x) * (-x) == x * x) by (nonlinear_arith);
    }
}

/// Scaling both components by `num / den <= 1`, rounding toward zero, shrinks
/// the squared length by at least the square of that ratio.
proof fn lemma_scale_norm(x: int, z: int, num: int, den: int)
    requires
        den > 0,
        0 <= num <= den,
    ensures
        norm2(frac(x * num, den), frac(z * num, den)) * (den * den) <= norm2(x, z) * (num * num),
        norm2(frac(x * num, den), frac(z * num, den)) <= norm2(x, z),
{
    let rx = frac(x * num, den);
    let rz = frac(z * num, den);
    lemma_frac(x * num, den);
    lemma_frac(z * num, den);
    lemma_abs_mul(x, num);
    lemma_abs_mul(z, num);
    lemma_sq_abs(rx);
    lemma_sq_abs(rz);
    lemma_sq_abs(x);
    lemma_sq_abs(z);
    let ax = abs(x);
    let az = abs(z);
    let bx = abs(rx);
    let bz = abs(rz);
    assert(bx * bx * (den * den) <= ax * ax * (num * num)) by (nonlinear_arith)
        requires
            bx * den <= ax * num,
            bx >= 0,
            den > 0,
    ;
    assert(bz * bz * (den * den) <= az * az * (num * num)) by (nonlinear_arith)
        requires
            bz * den <= az * num,
            bz >= 0,
            den > 0,
    ;
    assert((bx * bx + bz * bz) * (den * den) <= (ax * ax + az * az) * (num * num))
        by (nonlinear_arith)
        requires
            bx * bx * (den * den) <= ax * ax * (num * num),
            bz * bz * (den * den) <= az * az * (num * num),
    ;
    let big = ax * ax + az * az;
    let small = bx * bx + bz * bz;
    assert(num * num <= den * den) by (nonlinear_arith)
        requires
            0 <= num <= den,
    ;
    assert(big >= 0) by (nonlinear_arith)
        requires
            big == ax * ax + az * az,
    ;
    assert(big * (num * num) <= big * (den * den)) by (nonlinear_arith)
        requires
            num * num <= den * den,
            big >= 0,
    ;
    assert(small <= big) by (nonlinear_arith)
        requires
            small * (den * den) <= big * (den * den),
            den > 0,
    ;
}

/// Velocity after braking at `braking` for `dt` along its own direction.
pub open spec fn brake(v: (int, int), braking: int, dt: int) -> (int, int) {
    let speed = ceil_sqrt(norm2(v.0, v.1));
    let slowed = speed - frac(braking * dt, MICROS as int);
    let new_speed = if slowed > 0 {
        slowed
    } else {
        0
    };
    if speed > 0 {
        (frac(v.0 * new_speed, speed), frac(v.1 * new_speed, speed))
    } else {
        v
    }
}

proof fn lemma_brake(v: (int, int), braking: int, dt: int)
    requires
        bounded(v),
        0 <= braking <= LIMIT,
        0 <= dt <= LIMIT,
    ensures
        norm2(brake(v, braking, dt).0, brake(v, braking, dt).1) <= norm2(v.0, v.1),
        ({
            let speed = ceil_sqrt(norm2(v.0, v.1));
            let slowed = speed - frac(braking * dt, MICROS as int);
            let b = brake(v, braking, dt);
            &&& is_ceil_sqrt(norm2(v.0, v.1), speed)
            &&& norm2(b.0, b.1) <= (if slowed > 0 { slowed * slowed } else { 0 })
        }),
{
    let n = norm2(v.0, v.1);
    assert(0 <= n) by (nonlinear_arith)
        requires
            n == v.0 * v.0 + v.1 * v.1,
    ;
    lemma_ceil_sqrt_exists(n);
    let speed = ceil_sqrt(n);
    let step = frac(braking * dt, MICROS as int);
    assert(braking * dt >= 0) by (nonlinear_arith)
        requires
            braking >= 0,
            dt >= 0,
    ;
    let slowed = speed - step;
    let ns = if slowed > 0 {
        slowed
    } else {
        0
    };
    if speed > 0 {
        lemma_scale_norm(v.0, v.1, ns, speed);
        let b = brake(v, braking, dt);
        let m = norm2(b.0, b.1);
        assert(m >= 0) by (nonlinear_arith)
            requires
                m == b.0 * b.0 + b.1 * b.1,
        ;
        assert(m <= ns * ns) by (nonlinear_arith)
            requires
                m * (speed * speed) <= n * (ns * ns),
                n <= speed * speed,
                speed > 0,
                m >= 0,
                ns >= 0,
        ;
    } else {
        assert(n <= 0) by (nonlinear_arith)
            requires
                n <= speed * speed,
                speed == 0,
        ;
    }
}

fn apply_brake(vx: i64, vz: i64, braking: i64, dt: i64) -> (r: (i64, i64))
    requires
        bounded((vx as int, vz as int)),
        0 <= braking <= LIMIT,
        0 <= dt <= LIMIT,
    ensures
        (r.0 as int, r.1 as int) == brake((vx as int, vz as int), braking as int, dt as int),
        norm2(r.0 as int, r.1 as int) <= norm2(vx as int, vz as int),
{
    proof {
        lemma_bounded_parts(vx as int, vz as int);
        lemma_brake((vx as int, vz as int), braking as int, dt as int);
        assert(0 <= braking * dt <= LIMIT * LIMIT) by (nonlinear_arith)
            requires
                0 <= braking <= LIMIT,
                0 <= dt <= LIMIT,
        ;
    }
    let n: i128 = (vx as i128) * (vx as i128) + (vz as i128) * (vz as i128);
    let speed = ceil_sqrt_i128(n);
    let step = mul_div(braking, dt, MICROS);
    let new_speed: i64 = if speed > step {
        speed - step
    } else {
        0
    };
    if speed > 0 {
        proof {
            lemma_frac_scale(vx as int, new_speed as int, speed as int);
            lemma_frac_scale(vz as int, new_speed as int, speed as int);
        }
        (mul_div(vx, new_speed, speed), mul_div(vz, new_speed, speed))
    } else {
        (vx, vz)
    }
}

/// Velocity after pulling its part across the heading `f` toward zero by the
/// weight `alpha`: `v - (v - (v . f) f) * alpha`, all scaled by `UNIT`.
pub open spec fn damp_lateral(v: (int, int), f: (int, int), alpha: int) -> (int, int) {
    let u = UNIT as int;
    let along = frac(v.0 * f.0 + v.1 * f.1, u);
    let q = (frac(along * f.0, u), frac(along * f.1, u));
    (frac((u - alpha) * v.0 + alpha * q.0, u), frac((u - alpha) * v.1 + alpha * q.1, u))
}

/// Cauchy-Schwarz in the plane.
proof fn lemma_cauchy_schwarz(ax: int, az: int, bx: int, bz: int)
    ensures
        (ax * bx + az * bz) * (ax * bx + az * bz) <= norm2(ax, az) * norm2(bx, bz),
{
    let d = ax * bx + az * bz;
    let c = ax * bz - az * bx;
    let pa = ax * bx;
    let pb = az * bz;
    let pc = ax * bz;
    let pd = az * bx;
    assert((ax * ax + az * az) * (bx * bx + bz * bz) == (ax * ax) * (bx * bx) + (ax * ax) * (bz
        * bz) + (az * az) * (bx * bx) + (az * az) * (bz * bz)) by (nonlinear_arith);
    assert((ax * ax) * (bx * bx) == pa * pa) by (nonlinear_arith)
        requires
            pa == ax * bx,
    ;
    assert((az * az) * (bz * bz) == pb * pb) by (nonlinear_arith)
        requires
            pb == az * bz,
    ;
    assert((ax * ax) * (bz * bz) == pc * pc) by (nonlinear_arith)
        requires
            pc == ax * bz,
    ;
    assert((az * az) * (bx * bx) == pd * pd) by (nonlinear_arith)
        requires
            pd == az * bx,
    ;
    assert(pa * pb == pc * pd) by (nonlinear_arith)
        requires
            pa == ax * bx,
            pb == az * bz,
            pc == ax * bz,
            pd == az * bx,
    ;
    assert((pa + pb) * (pa + pb) == pa * pa + 2 * (pa * pb) + pb * pb) by (nonlinear_arith);
    assert((pc - pd) * (pc - pd) == pc * pc - 2 * (pc * pd) + pd * pd) by (nonlinear_arith);
    assert(c * c >= 0) by (nonlinear_arith);
}

/// Rounding both components of `w` by `d` shrinks the squared length by `d^2`.
proof fn lemma_frac_norm(wx: int, wz: int, d: int)
    requires
        d > 0,
    ensures
        norm2(frac(wx, d), frac(wz, d)) * (d * d) <= norm2(wx, wz),
{
    let rx = frac(wx, d);
    let rz = frac(wz, d);
    lemma_frac(wx, d);
    lemma_frac(wz, d);
    lemma_sq_abs(rx);
    lemma_sq_abs(rz);
    lemma_sq_abs(wx);
    lemma_sq_abs(wz);
    let ax = abs(rx);
    let az = abs(rz);
    assert(ax * ax * (d * d) <= abs(wx) * abs(wx)) by (nonlinear_arith)
        requires
            ax * d <= abs(wx),
            ax >= 0,
            d > 0,
    ;
    assert(az * az * (d * d) <= abs(wz) * abs(wz)) by (nonlinear_arith)
        requires
            az * d <= abs(wz),
            az >= 0,
            d > 0,
    ;
    assert((ax * ax + az * az) * (d * d) == ax * ax * (d * d) + az * az * (d * d))
        by (nonlinear_arith);
}

proof fn lemma_sq_le(x: int, y: int)
    requires
        0 <= x <= y,
    ensures
        x * x <= y * y,
{
    assert(x * x <= y * y) by (nonlinear_arith)
        requires
            0 <= x <= y,
    ;
}

proof fn lemma_blend_square(k: int, a: int, x: int, y: int)
    ensures
        (k * x + a * y) * (k * x + a * y) == k * k * (x * x) + 2 * k * a * (x * y) + a * a * (y
            * y),
{
    let p = k * x;
    let q = a * y;
    assert((p + q) * (p + q) == p * p + 2 * (p * q) + q * q) by (nonlinear_arith);
    assert(p * p == k * k * (x * x)) by (nonlinear_arith)
        requires
            p == k * x,
    ;
    assert(q * q == a * a * (y * y)) by (nonlinear_arith)
        requires
            q == a * y,
    ;
    assert(2 * (p * q) == 2 * k * a * (x * y)) by (nonlinear_arith)
        requires
            p == k * x,
            q == a * y,
    ;
}

proof fn lemma_norm_nonneg(x: int, z: int)
    ensures
        norm2(x, z) >= 0,
{
    assert(x * x + z * z >= 0) by (nonlinear_arith);
}

/// Damping the lateral part never speeds a body up, when the heading is at
/// most a unit long.
proof fn lemma_damp_lateral(v: (int, int), f: (int, int), alpha: int)
    requires
        norm2(f.0, f.1) <= UNIT * UNIT,
        0 <= alpha <= UNIT,
    ensures
        norm2(damp_lateral(v, f, alpha).0, damp_lateral(v, f, alpha).1) <= norm2(v.0, v.1),
{
    let u = UNIT as int;
    let n = norm2(v.0, v.1);
    let nf = norm2(f.0, f.1);
    lemma_norm_nonneg(v.0, v.1);
    lemma_norm_nonneg(f.0, f.1);
    // the part along the heading is no longer than the velocity
    let dot = v.0 * f.0 + v.1 * f.1;
    lemma_cauchy_schwarz(v.0, v.1, f.0, f.1);
    let along = frac(dot, u);
    lemma_frac(dot, u);
    lemma_sq_abs(along);
    lemma_sq_abs(dot);
    let aa = abs(along);
    lemma_sq_le(aa * u, abs(dot));
    assert((aa * u) * (aa * u) == aa * aa * (u * u)) by (nonlinear_arith);
    assert(n * nf <= n * (u * u)) by (nonlinear_arith)
        requires
            nf <= u * u,
            n >= 0,
    ;
    assert(along * along <= n) by (nonlinear_arith)
        requires
            aa * aa * (u * u) <= n * (u * u),
            aa * aa == along * along,
            u > 0,
    ;
    // so is its projection back onto the heading
    let qx = frac(along * f.0, u);
    let qz = frac(along * f.1, u);
    lemma_frac_norm(along * f.0, along * f.1, u);
    let nq = norm2(qx, qz);
    lemma_norm_nonneg(qx, qz);
    assert((along * f.0) * (along * f.0) + (along * f.1) * (along * f.1) == (along * along) * (
    f.0 * f.0 + f.1 * f.1)) by (nonlinear_arith);
    assert((along * along) * nf <= (along * along) * (u * u)) by (nonlinear_arith)
        requires
            nf <= u * u,
            along * along >= 0,
    ;
    assert(nq <= along * along) by (nonlinear_arith)
        requires
            nq * (u * u) <= (along * along) * (u * u),
            u > 0,
    ;
    // their dot product is at most the squared speed
    let vq = v.0 * qx + v.1 * qz;
    lemma_cauchy_schwarz(v.0, v.1, qx, qz);
    assert(n * nq <= n * n) by (nonlinear_arith)
        requires
            nq <= n,
            n >= 0,
    ;
    assert(vq <= n) by (nonlinear_arith)
        requires
            vq * vq <= n * n,
            n >= 0,
    ;
    // the blend of the two is no longer than the velocity
    let k = u - alpha;
    let wx = k * v.0 + alpha * qx;
    let wz = k * v.1 + alpha * qz;
    lemma_blend_square(k, alpha, v.0, qx);
    lemma_blend_square(k, alpha, v.1, qz);
    assert(norm2(wx, wz) == k * k * n + 2 * k * alpha * vq + alpha * alpha * nq) by {
        assert(k * k * n == k * k * (v.0 * v.0) + k * k * (v.1 * v.1)) by (nonlinear_arith)
            requires
                n == v.0 * v.0 + v.1 * v.1,
        ;
        assert(2 * k * alpha * vq == 2 * k * alpha * (v.0 * qx) + 2 * k * alpha * (v.1 * qz))
            by (nonlinear_arith)
            requires
                vq == v.0 * qx + v.1 * qz,
        ;
        assert(alpha * alpha * nq == alpha * alpha * (qx * qx) + alpha * alpha * (qz * qz))
            by (nonlinear_arith)
            requires
                nq == qx * qx + qz * qz,
        ;
    }
    assert(k * k * n + 2 * k * alpha * vq + alpha * alpha * nq <= u * u * n) by (nonlinear_arith)
        requires
            0 <= alpha <= u,
            k == u - alpha,
            vq <= n,
            nq <= n,
    ;
    lemma_frac_norm(wx, wz, u);
    let r = damp_lateral(v, f, alpha);
    assert(norm2(r.0, r.1) <= n) by (nonlinear_arith)
        requires
            norm2(r.0, r.1) * (u * u) <= u * u * n,
            u > 0,
    ;
}

fn apply_lateral(vx: i64, vz: i64, fx: i64, fz: i64, alpha: i64) -> (r: (i64, i64))
    requires
        bounded((vx as int, vz as int)),
        norm2(fx as int, fz as int) <= UNIT * UNIT,
        -UNIT <= fx <= UNIT,
        -UNIT <= fz <= UNIT,
        0 <= alpha <= UNIT,
    ensures
        (r.0 as int, r.1 as int) == damp_lateral(
            (vx as int, vz as int),
            (fx as int, fz as int),
            alpha as int,
        ),
        norm2(r.0 as int, r.1 as int) <= norm2(vx as int, vz as int),
{
    let ghost v = (vx as int, vz as int);
    let ghost f = (fx as int, fz as int);
    proof {
        lemma_damp_lateral(v, f, alpha as int);
        lemma_bounded_parts(vx as int, vz as int);
        assert(-BIG * UNIT <= vx * fx <= BIG * UNIT) by (nonlinear_arith)
            requires
                -BIG <= vx <= BIG,
                -UNIT <= fx <= UNIT,
        ;
        assert(-BIG * UNIT <= vz * fz <= BIG * UNIT) by (nonlinear_arith)
            requires
                -BIG <= vz <= BIG,
                -UNIT <= fz <= UNIT,
        ;
        lemma_frac_le(vx * fx + vz * fz, UNIT as int);
    }
    let dot: i128 = (vx as i128) * (fx as i128) + (vz as i128) * (fz as i128);
    let along = div_trunc(dot, UNIT);
    proof {
        lemma_frac_scale(along as int, fx as int, UNIT as int);
        lemma_frac_scale(along as int, fz as int, UNIT as int);
    }
    let qx = mul_div(along, fx, UNIT);
    let qz = mul_div(along, fz, UNIT);
    let k = UNIT - alpha;
    proof {
        assert(-BIG * UNIT <= k * vx <= BIG * UNIT) by (nonlinear_arith)
            requires
                -BIG <= vx <= BIG,
                0 <= k <= UNIT,
        ;
        assert(-2 * BIG * UNIT * UNIT <= alpha * qx <= 2 * BIG * UNIT * UNIT) by (nonlinear_arith)
            requires
                -2 * BIG * UNIT <= qx <= 2 * BIG * UNIT,
                0 <= alpha <= UNIT,
        ;
        assert(-BIG * UNIT <= k * vz <= BIG * UNIT) by (nonlinear_arith)
            requires
                -BIG <= vz <= BIG,
                0 <= k <= UNIT,
        ;
        assert(-2 * BIG * UNIT * UNIT <= alpha * qz <= 2 * BIG * UNIT * UNIT) by (nonlinear_arith)
            requires
                -2 * BIG * UNIT <= qz <= 2 * BIG * UNIT,
                0 <= alpha <= UNIT,
        ;
        lemma_frac(k * vx + alpha * qx, UNIT as int);
        lemma_frac(k * vz + alpha * qz, UNIT as int);
    }
    let wx: i128 = (k as i128) * (vx as i128) + (alpha as i128) * (qx as i128);
    let wz: i128 = (k as i128) * (vz as i128) + (alpha as i128) * (qz as i128);
    (div_trunc(wx, UNIT), div_trunc(wz, UNIT))
}

/// Velocity after drag at `drag` for `dt`: scaled by `max(0, 1 - drag * dt)`.
pub open spec fn drag(v: (int, int), drag: int, dt: int) -> (int, int) {
    let k = UNIT - frac(drag * dt, MICROS as int);
    let factor = if k > 0 {
        k
    } else {
        0
    };
    (frac(v.0 * factor, UNIT as int), frac(v.1 * factor, UNIT as int))
}

fn apply_drag(vx: i64, vz: i64, drag_rate: i64, dt: i64) -> (r: (i64, i64))
    requires
        bounded((vx as int, vz as int)),
        0 <= drag_rate <= LIMIT,
        0 <= dt <= LIMIT,
    ensures
        (r.0 as int, r.1 as int) == drag((vx as int, vz as int), drag_rate as int, dt as int),
        norm2(r.0 as int, r.1 as int) <= norm2(vx as int, vz as int),
{
    proof {
        lemma_bounded_parts(vx as int, vz as int);
        assert(0 <= drag_rate * dt <= LIMIT * LIMIT) by (nonlinear_arith)
            requires
                0 <= drag_rate <= LIMIT,
                0 <= dt <= LIMIT,
        ;
    }
    let loss = mul_div(drag_rate, dt, MICROS);
    let factor: i64 = if loss < UNIT {
        UNIT - loss
    } else {
        0
    };
    proof {
        lemma_scale_norm(vx as int, vz as int, factor as int, UNIT as int);
        lemma_frac_scale(vx as int, factor as int, UNIT as int);
        lemma_frac_scale(vz as int, factor as int, UNIT as int);
    }
    (mul_div(vx, factor, UNIT), mul_div(vz, factor, UNIT))
}

/// Velocity cut down to length `max_speed` when longer, direction kept.
pub open spec fn limit_speed(v: (int, int), max_speed: int) -> (int, int) {
    let n = norm2(v.0, v.1);
    if n > max_speed * max_speed {
        let len = ceil_sqrt(n);
        (frac(v.0 * max_speed, len), frac(v.1 * max_speed, len))
    } else {
        v
    }
}

proof fn lemma_limit_speed(v: (int, int), max_speed: int)
    requires
        bounded(v),
        max_speed >= 0,
    ensures
        norm2(limit_speed(v, max_speed).0, limit_speed(v, max_speed).1) <= max_speed * max_speed,
        norm2(limit_speed(v, max_speed).0, limit_speed(v, max_speed).1) <= norm2(v.0, v.1),
        norm2(v.0, v.1) > max_speed * max_speed ==> ceil_sqrt(norm2(v.0, v.1)) > max_speed,
{
    let n = norm2(v.0, v.1);
    lemma_norm_nonneg(v.0, v.1);
    if n > max_speed * max_speed {
        lemma_ceil_sqrt_exists(n);
        let len = ceil_sqrt(n);
        assert(len > max_speed) by (nonlinear_arith)
            requires
                len * len >= n,
                n > max_speed * max_speed,
                len >= 0,
                max_speed >= 0,
        ;
        lemma_scale_norm(v.0, v.1, max_speed, len);
        let r = limit_speed(v, max_speed);
        let m = norm2(r.0, r.1);
        lemma_norm_nonneg(r.0, r.1);
        assert(m <= max_speed * max_speed) by (nonlinear_arith)
            requires
                m * (len * len) <= n * (max_speed * max_speed),
                n <= len * len,
                len > 0,
                m >= 0,
        ;
    }
}

fn apply_limit(vx: i64, vz: i64, max_speed: i64) -> (r: (i64, i64))
    requires
        bounded((vx as int, vz as int)),
        0 < max_speed <= LIMIT,
    ensures
        (r.0 as int, r.1 as int) == limit_speed((vx as int, vz as int), max_speed as int),
        norm2(r.0 as int, r.1 as int) <= max_speed * max_speed,
        norm2(r.0 as int, r.1 as int) <= norm2(vx as int, vz as int),
{
    proof {
        lemma_bounded_parts(vx as int, vz as int);
        lemma_limit_speed((vx as int, vz as int), max_speed as int);
    }
    let n: i128 = (vx as i128) * (vx as i128) + (vz as i128) * (vz as i128);
    assert(max_speed * max_speed <= LIMIT * LIMIT) by (nonlinear_arith)
        requires
            0 < max_speed <= LIMIT,
    ;
    if n > (max_speed as i128) * (max_speed as i128) {
        let len = ceil_sqrt_i128(n);
        proof {
            lemma_frac_scale(vx as int, max_speed as int, len as int);
            lemma_frac_scale(vz as int, max_speed as int, len as int);
        }
        (mul_div(vx, max_speed, len), mul_div(vz, max_speed, len))
    } else {
        (vx, vz)
    }
}

/// One frame of locomotion: the new yaw and planar velocity `(x, z)`.
///
/// Turn, thrust along the new heading, brake when there is no throttle,
/// damp the sideways drift, apply drag, and cut down to the top speed.
pub open spec fn drive(
    c: PlayerController,
    input: PlayerInput,
    yaw: int,
    v: (int, int),
    dt: int,
) -> (int, (int, int)) {
    let new_yaw = turned_yaw(yaw, turn_input(input), c.turn_speed as int, dt);
    let f = heading(new_yaw);
    let fwd = throttle(input);
    let pushed = thrust(v, f, fwd, c.acceleration as int, dt);
    let braked = if abs(fwd) < THROTTLE_EPSILON {
        brake(pushed, c.braking as int, dt)
    } else {
        pushed
    };
    let gripped = damp_lateral(braked, f, blend(c.lateral_damping as int, dt));
    let dragged = drag(gripped, c.drag as int, dt);
    (new_yaw, limit_speed(dragged, c.max_speed(input.sprint)))
}

/// A velocity that an update accepts: each planar component within `LIMIT`.
pub open spec fn velocity_ok(v: Vec3) -> bool {
    -LIMIT <= v.x <= LIMIT && -LIMIT <= v.z <= LIMIT
}

/// Advances the player's facing and planar velocity by one frame of `dt`
/// microseconds; the vertical velocity belongs to the physics and is kept.
pub fn drive_player(
    config: &PlayerController,
    input: &PlayerInput,
    facing: &mut PlayerFacing,
    velocity: &mut Vec3,
    dt: i64,
)
    requires
        config.wf(),
        input.wf(),
        old(facing).wf(),
        velocity_ok(*old(velocity)),
        0 <= dt <= LIMIT,
    ensures
        final(facing).wf(),
        velocity_ok(*final(velocity)),
        (final(facing).yaw as int, (final(velocity).x as int, final(velocity).z as int)) == drive(
            *config,
            *input,
            old(facing).yaw as int,
            (old(velocity).x as int, old(velocity).z as int),
            dt as int,
        ),
        final(velocity).y == old(velocity).y,
        norm2(final(velocity).x as int, final(velocity).z as int) <= config.max_speed(
            input.sprint,
        ) * config.max_speed(input.sprint),
{
    let turn = clamp_i64(input.movement_x + input.yaw_input, -UNIT, UNIT);
    let yaw = turn_yaw(facing.yaw, turn, config.turn_speed, dt);
    let (fx, fz) = heading_of(yaw);
    let fwd = clamp_i64(input.movement_y, -UNIT, UNIT);
    let (x1, z1) = apply_thrust(velocity.x, velocity.z, fx, fz, fwd, config.acceleration, dt);
    proof {
        lemma_thrust_bounded(x1 as int, z1 as int);
    }
    let (x2, z2) = if fwd < THROTTLE_EPSILON && fwd > -THROTTLE_EPSILON {
        apply_brake(x1, z1, config.braking, dt)
    } else {
        (x1, z1)
    };
    let alpha = blend_of(config.lateral_damping, dt);
    let (x3, z3) = apply_lateral(x2, z2, fx, fz, alpha);
    let (x4, z4) = apply_drag(x3, z3, config.drag, dt);
    let max_speed = if input.sprint {
        config.sprint_speed
    } else {
        config.walk_speed
    };
    let (x5, z5) = apply_limit(x4, z4, max_speed);
    proof {
        lemma_bounded_parts(x5 as int, z5 as int);
        assert(-LIMIT <= x5 <= LIMIT && -LIMIT <= z5 <= LIMIT) by (nonlinear_arith)
            requires
                x5 * x5 + z5 * z5 <= max_speed * max_speed,
                0 < max_speed <= LIMIT,
        ;
    }
    facing.yaw = yaw;
    velocity.x = x5;
    velocity.z = z5;
}

proof fn lemma_frac_exact(x: int, d: int)
    requires
        d > 0,
    ensures
        frac(x * d, d) == x,
        frac(0, d) == 0,
{
    if x >= 0 {
        assert(x * d >= 0) by (nonlinear_arith)
            requires
                x >= 0,
                d > 0,
        ;
        vstd::arithmetic::div_mod::lemma_div_by_multiple(x, d);
    } else {
        assert(x * d < 0 && -(x * d) == (-x) * d) by (nonlinear_arith)
            requires
                x < 0,
                d > 0,
        ;
        vstd::arithmetic::div_mod::lemma_div_by_multiple(-x, d);
    }
}

/// A frame of no time changes neither the facing nor the velocity, for a
/// velocity already within the top speed.
pub proof fn lemma_zero_dt_is_no_op(c: PlayerController, input: PlayerInput, yaw: int, v: (int, int))
    requires
        c.wf(),
        input.wf(),
        0 <= yaw < FULL_TURN,
        norm2(v.0, v.1) <= c.max_speed(input.sprint) * c.max_speed(input.sprint),
    ensures
        drive(c, input, yaw, v, 0) == (yaw, v),
{
    let u = UNIT as int;
    let m = MICROS as int;
    lemma_frac_exact(0, m);
    lemma_frac_exact(0, u);
    vstd::arithmetic::div_mod::lemma_small_mod(yaw as nat, FULL_TURN as nat);
    let new_yaw = turned_yaw(yaw, turn_input(input), c.turn_speed as int, 0);
    let rate = frac(turn_input(input) * c.turn_speed, u);
    assert(rate * 0 == 0);
    assert(new_yaw == yaw);
    let f = heading(new_yaw);
    let fwd = throttle(input);
    assert(c.acceleration * 0 == 0);
    assert(fwd * 0 == 0);
    assert(f.0 * 0 == 0 && f.1 * 0 == 0);
    let pushed = thrust(v, f, fwd, c.acceleration as int, 0);
    assert(pushed == v);
    let braked = if abs(fwd) < THROTTLE_EPSILON {
        brake(pushed, c.braking as int, 0)
    } else {
        pushed
    };
    let n = norm2(v.0, v.1);
    lemma_norm_nonneg(v.0, v.1);
    assert(n <= NORM_BOUND) by (nonlinear_arith)
        requires
            n <= c.max_speed(input.sprint) * c.max_speed(input.sprint),
            0 < c.max_speed(input.sprint) <= LIMIT,
    ;
    lemma_ceil_sqrt_exists(n);
    let speed = ceil_sqrt(n);
    assert(c.braking * 0 == 0);
    if speed > 0 {
        lemma_frac_exact(v.0, speed);
        lemma_frac_exact(v.1, speed);
        assert(v.0 * speed == v.0 * speed);
    }
    assert(braked == v);
    assert(c.lateral_damping * 0 == 0);
    assert(blend(c.lateral_damping as int, 0) == 0) by {
        assert(12 * 0 * u * u == 0);
    }
    let along = frac(v.0 * f.0 + v.1 * f.1, u);
    assert(0 * frac(along * f.0, u) == 0 && 0 * frac(along * f.1, u) == 0);
    assert((u - 0) * v.0 == v.0 * u && (u - 0) * v.1 == v.1 * u) by (nonlinear_arith);
    lemma_frac_exact(v.0, u);
    lemma_frac_exact(v.1, u);
    let gripped = damp_lateral(braked, f, blend(c.lateral_damping as int, 0));
    assert(gripped == v);
    assert(c.drag * 0 == 0);
    let dragged = drag(gripped, c.drag as int, 0);
    assert(dragged == v);
}

/// The planar speed, rounded up.
pub open spec fn speed(v: (int, int)) -> int {
    ceil_sqrt(norm2(v.0, v.1))
}

/// The speed that braking takes off in one frame of `dt`.
pub open spec fn brake_step(c: PlayerController, dt: int) -> int {
    frac(c.braking * dt, MICROS as int)
}

/// The state after `n` frames of `dt` under one unchanging input.
pub open spec fn driven(
    c: PlayerController,
    input: PlayerInput,
    yaw: int,
    v: (int, int),
    dt: int,
    n: nat,
) -> (int, (int, int))
    decreases n,
{
    if n == 0 {
        (yaw, v)
    } else {
        let next = drive(c, input, yaw, v, dt);
        driven(c, input, next.0, next.1, dt, (n - 1) as nat)
    }
}

proof fn lemma_turned_yaw_range(yaw: int, turn: int, turn_speed: int, dt: int)
    requires
        0 <= yaw < FULL_TURN,
    ensures
        0 <= turned_yaw(yaw, turn, turn_speed, dt) < FULL_TURN,
{
    let rate = frac(turn * turn_speed, UNIT as int);
    vstd::arithmetic::div_mod::lemma_mod_bound(yaw + frac(rate * dt, MICROS as int), FULL_TURN as int);
}

/// One frame without throttle: the speed falls by the braking step, down to zero.
proof fn lemma_coast_step(c: PlayerController, input: PlayerInput, yaw: int, v: (int, int), dt: int)
    requires
        c.wf(),
        input.wf(),
        input.movement_y == 0,
        0 <= yaw < FULL_TURN,
        bounded(v),
        0 <= dt <= LIMIT,
    ensures
        0 <= drive(c, input, yaw, v, dt).0 < FULL_TURN,
        bounded(drive(c, input, yaw, v, dt).1),
        speed(drive(c, input, yaw, v, dt).1) <= (if speed(v) - brake_step(c, dt) > 0 {
            speed(v) - brake_step(c, dt)
        } else {
            0
        }),
{
    let u = UNIT as int;
    let new_yaw = turned_yaw(yaw, turn_input(input), c.turn_speed as int, dt);
    lemma_turned_yaw_range(yaw, turn_input(input), c.turn_speed as int, dt);
    let f = heading(new_yaw);
    lemma_heading_bound(new_yaw);
    let fwd = throttle(input);
    assert(fwd == 0);
    let gain = frac(c.acceleration * dt, MICROS as int);
    assert(0 * gain == 0);
    lemma_frac_exact(0, u);
    assert(f.0 * 0 == 0 && f.1 * 0 == 0);
    let pushed = thrust(v, f, fwd, c.acceleration as int, dt);
    assert(pushed == v);
    let braked = brake(pushed, c.braking as int, dt);
    lemma_brake(v, c.braking as int, dt);
    let slowed = speed(v) - brake_step(c, dt);
    let ns = if slowed > 0 {
        slowed
    } else {
        0
    };
    assert(norm2(braked.0, braked.1) <= ns * ns);
    let alpha = blend(c.lateral_damping as int, dt);
    lemma_blend_bounds(c.lateral_damping as int, dt);
    let gripped = damp_lateral(braked, f, alpha);
    lemma_damp_lateral(braked, f, alpha);
    let loss = frac(c.drag * dt, MICROS as int);
    assert(c.drag * dt >= 0) by (nonlinear_arith)
        requires
            c.drag >= 0,
            dt >= 0,
    ;
    let k = u - loss;
    let factor = if k > 0 {
        k
    } else {
        0
    };
    lemma_scale_norm(gripped.0, gripped.1, factor, u);
    let dragged = drag(gripped, c.drag as int, dt);
    lemma_norm_nonneg(dragged.0, dragged.1);
    lemma_norm_nonneg(v.0, v.1);
    assert(bounded(dragged));
    let m = c.max_speed(input.sprint);
    lemma_limit_speed(dragged, m);
    let last = limit_speed(dragged, m);
    assert(drive(c, input, yaw, v, dt) == (new_yaw, last));
    let n2 = norm2(last.0, last.1);
    lemma_norm_nonneg(last.0, last.1);
    assert(n2 <= ns * ns);
    assert(n2 <= NORM_BOUND);
    lemma_ceil_sqrt_exists(n2);
    lemma_ceil_sqrt_least(n2, speed(last), ns);
}

/// Without throttle, whatever the steering, the speed falls by at least the
/// braking step every frame, and once `n` braking steps cover the starting
/// speed the body is at rest: both velocity components are exactly zero,
/// and stay so for every later frame.
pub proof fn lemma_braking_comes_to_rest(
    c: PlayerController,
    input: PlayerInput,
    yaw: int,
    v: (int, int),
    dt: int,
    n: nat,
)
    requires
        c.wf(),
        input.wf(),
        input.movement_y == 0,
        0 <= yaw < FULL_TURN,
        -LIMIT <= v.0 <= LIMIT,
        -LIMIT <= v.1 <= LIMIT,
        0 <= dt <= LIMIT,
        brake_step(c, dt) > 0,
        n * brake_step(c, dt) >= speed(v),
    ensures
        driven(c, input, yaw, v, dt, n).1 == (0int, 0int),
{
    lemma_thrust_bounded(v.0, v.1);
    lemma_coasting(c, input, yaw, v, dt, n);
    let last = driven(c, input, yaw, v, dt, n).1;
    let n2 = norm2(last.0, last.1);
    lemma_norm_nonneg(last.0, last.1);
    lemma_ceil_sqrt_exists(n2);
    assert(speed(last) <= 0) by (nonlinear_arith)
        requires
            speed(last) <= (if speed(v) - n * brake_step(c, dt) > 0 {
                speed(v) - n * brake_step(c, dt)
            } else {
                0
            }),
            n * brake_step(c, dt) >= speed(v),
    ;
    assert(last.0 == 0 && last.1 == 0) by (nonlinear_arith)
        requires
            last.0 * last.0 + last.1 * last.1 <= speed(last) * speed(last),
            speed(last) == 0,
    ;
}

proof fn lemma_coasting(
    c: PlayerController,
    input: PlayerInput,
    yaw: int,
    v: (int, int),
    dt: int,
    n: nat,
)
    requires
        c.wf(),
        input.wf(),
        input.movement_y == 0,
        0 <= yaw < FULL_TURN,
        bounded(v),
        0 <= dt <= LIMIT,
        brake_step(c, dt) >= 0,
    ensures
        bounded(driven(c, input, yaw, v, dt, n).1),
        speed(driven(c, input, yaw, v, dt, n).1) <= (if speed(v) - n * brake_step(c, dt) > 0 {
            speed(v) - n * brake_step(c, dt)
        } else {
            0
        }),
    decreases n,
{
    let b = brake_step(c, dt);
    if n == 0 {
        lemma_norm_nonneg(v.0, v.1);
        lemma_ceil_sqrt_exists(norm2(v.0, v.1));
    } else {
        lemma_coast_step(c, input, yaw, v, dt);
        let next = drive(c, input, yaw, v, dt);
        lemma_coasting(c, input, next.0, next.1, dt, (n - 1) as nat);
        let s0 = speed(v);
        let s1 = speed(next.1);
        let k = (n - 1) as nat;
        assert(n * b == k * b + b) by (nonlinear_arith)
            requires
                n == k + 1,
        ;
        lemma_norm_nonneg(next.1.0, next.1.1);
        lemma_ceil_sqrt_exists(norm2(next.1.0, next.1.1));
        assert(k * b >= 0) by (nonlinear_arith)
            requires
                b >= 0,
        ;
    }
}

/// Whatever the steering, over any number of frames, the facing stays
/// wrapped into one revolution.
pub proof fn lemma_facing_stays_wrapped(
    c: PlayerController,
    input: PlayerInput,
    yaw: int,
    v: (int, int),
    dt: int,
    n: nat,
)
    requires
        0 <= yaw < FULL_TURN,
    ensures
        0 <= driven(c, input, yaw, v, dt, n).0 < FULL_TURN,
    decreases n,
{
    if n > 0 {
        let next = drive(c, input, yaw, v, dt);
        lemma_turned_yaw_range(yaw, turn_input(input), c.turn_speed as int, dt);
        lemma_facing_stays_wrapped(c, input, next.0, next.1, dt, (n - 1) as nat);
    }
}

/// The weight by which the player's visual turns toward the facing this
/// frame, or `None` while neither throttle nor turn input is held.
pub open spec fn visual_turn(c: PlayerController, input: PlayerInput, dt: int) -> Option<int> {
    if abs(throttle(input)) > VISUAL_EPSILON || abs(turn_input(input)) > VISUAL_EPSILON {
        Some(blend(c.yaw_lerp_speed as int, dt))
    } else {
        None
    }
}

/// How far, scaled by `UNIT`, the player's visual turns toward the facing
/// this frame; see `visual_turn`.
pub fn visual_yaw_weight(config: &PlayerController, input: &PlayerInput, dt: i64) -> (r: Option<
    i64,
>)
    requires
        config.wf(),
        input.wf(),
        0 <= dt <= LIMIT,
    ensures
        r.is_some() == visual_turn(*config, *input, dt as int).is_some(),
        r.is_some() ==> r.unwrap() == visual_turn(*config, *input, dt as int).unwrap(),
        r.is_some() ==> 0 <= r.unwrap() < UNIT,
{
    let turn = clamp_i64(input.movement_x + input.yaw_input, -UNIT, UNIT);
    let fwd = clamp_i64(input.movement_y, -UNIT, UNIT);
    if fwd > VISUAL_EPSILON || fwd < -VISUAL_EPSILON || turn > VISUAL_EPSILON || turn
        < -VISUAL_EPSILON {
        Some(blend_of(config.yaw_lerp_speed, dt))
    } else {
        None
    }
}

} // verus!

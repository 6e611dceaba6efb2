use vstd::prelude::*;

use crate::math::{
    abs, blend, blend_of, ceil_sqrt, ceil_sqrt_i128, clamp, clamp_i64, cosine, cosine_of,
    div_trunc, frac, heading, heading_of, lemma_abs_mul, lemma_frac, lemma_frac_scale, mul_div,
    norm2, sine, sine_of, Vec3, FULL_TURN, LIMIT, UNIT,
};
use crate::player::PlayerFacing;

verus! {

/// How far the distance may exceed the largest height, in millimetres, so
/// that the camera stays clear of the near plane at the widest zoom.
pub const DISTANCE_MARGIN: i64 = 4_000;

/// Largest magnitude of a lead offset component.
pub const LEAD_BOUND: i64 = 0x8_0000_0000_0000;

/// Largest magnitude of a camera coordinate.
pub const CAMERA_BOUND: i64 = 0x10_0000_0000_0000;

/// Tuning of the top-down camera.
///
/// `height`, `distance`, `zoom_step`, `min_height` and `max_height` are in
/// millimetres, `pitch` in binary angle units, `damping` and
/// `lead_responsiveness` in `UNIT` per second, and the gains `velocity_lead`
/// and `heading_lead` scaled by `UNIT`.
#[derive(Clone, Copy, Debug, PartialEq, Eq, Structural)]
pub struct TopDownCameraConfig {
    pub height: i64,
    pub distance: i64,
    pub pitch: i64,
    pub damping: i64,
    pub zoom_step: i64,
    pub min_height: i64,
    pub max_height: i64,
    pub velocity_lead: i64,
    pub heading_lead: i64,
    pub lead_responsiveness: i64,
}

impl TopDownCameraConfig {
    /// Height within `[min_height, max_height]`, distance within
    /// `[min_height, max_height + DISTANCE_MARGIN]`, every rate and gain
    /// non-negative, and all within `LIMIT`.
    pub open spec fn wf(&self) -> bool {
        &&& 0 <= self.min_height <= self.max_height <= LIMIT - DISTANCE_MARGIN
        &&& self.min_height <= self.height <= self.max_height
        &&& self.min_height <= self.distance <= self.max_height + DISTANCE_MARGIN
        &&& 0 <= self.pitch < FULL_TURN
        &&& 0 <= self.damping <= LIMIT
        &&& 0 <= self.zoom_step <= LIMIT
        &&& 0 <= self.velocity_lead <= LIMIT
        &&& 0 <= self.heading_lead <= LIMIT
        &&& 0 <= self.lead_responsiveness <= LIMIT
    }

    /// The standard tuning: 16 m up, 18 m back, pitched down 55 degrees.
    pub fn new() -> (r: TopDownCameraConfig)
        ensures
            r.wf(),
            r.height == 16_000,
            r.distance == 18_000,
            r.pitch == 10_012,
            r.damping == 60_000,
            r.zoom_step == 2_000,
            r.min_height == 8_000,
            r.max_height == 40_000,
            r.velocity_lead == 2_500,
            r.heading_lead == 6_000,
            r.lead_responsiveness == 60_000,
    {
        TopDownCameraConfig {
            height: 16_000,
            distance: 18_000,
            pitch: 10_012,
            damping: 60_000,
            zoom_step: 2_000,
            min_height: 8_000,
            max_height: 40_000,
            velocity_lead: 2_500,
            heading_lead: 6_000,
            lead_responsiveness: 60_000,
        }
    }
}

/// The configuration after one zoom step of `delta`: a step of `1` brings the
/// camera lower and closer by `zoom_step`, a step of `-1` raises and pulls it
/// back, each clamped at once into its bounds; `0` changes nothing.
pub open spec fn zoomed(c: TopDownCameraConfig, delta: int) -> TopDownCameraConfig {
    if delta == 0 {
        c
    } else {
        TopDownCameraConfig {
            height: clamp(c.height - delta * c.zoom_step, c.min_height as int, c.max_height as int)
                as i64,
            distance: clamp(
                c.distance - delta * c.zoom_step,
                c.min_height as int,
                c.max_height + DISTANCE_MARGIN,
            ) as i64,
            ..c
        }
    }
}

/// Where a camera stands and what it looks at.
#[derive(Clone, Copy, Debug, PartialEq, Eq, Structural)]
pub struct TopDownCamera {
    pub translation: Vec3,
    pub look_at: Vec3,
}

impl TopDownCamera {
    pub open spec fn wf(&self) -> bool {
        &&& abs(self.translation.x as int) <= CAMERA_BOUND
        &&& abs(self.translation.y as int) <= CAMERA_BOUND
        &&& abs(self.translation.z as int) <= CAMERA_BOUND
    }
}

/// The configuration after a run of zoom steps, first to last.
pub open spec fn zoomed_all(c: TopDownCameraConfig, deltas: Seq<int>) -> TopDownCameraConfig
    decreases deltas.len(),
{
    if deltas.len() == 0 {
        c
    } else {
        zoomed_all(zoomed(c, deltas[0]), deltas.drop_first())
    }
}

/// After any run of zoom steps of `-1`, `0` or `1`, the height stays within
/// `[min_height, max_height]` and the distance within
/// `[min_height, max_height + DISTANCE_MARGIN]`.
pub proof fn lemma_zoom_stays_in_bounds(c: TopDownCameraConfig, deltas: Seq<int>)
    requires
        c.wf(),
        forall|i: int| 0 <= i < deltas.len() ==> -1 <= #[trigger] deltas[i] <= 1,
    ensures
        zoomed_all(c, deltas).wf(),
        c.min_height <= zoomed_all(c, deltas).height <= c.max_height,
        c.min_height <= zoomed_all(c, deltas).distance <= c.max_height + DISTANCE_MARGIN,
        zoomed_all(c, deltas).min_height == c.min_height,
        zoomed_all(c, deltas).max_height == c.max_height,
    decreases deltas.len(),
{
    if deltas.len() > 0 {
        let next = zoomed(c, deltas[0]);
        let rest = deltas.drop_first();
        assert forall|i: int| 0 <= i < rest.len() implies -1 <= #[trigger] rest[i] <= 1 by {
            assert(rest[i] == deltas[i + 1]);
        }
        lemma_zoom_stays_in_bounds(next, rest);
    }
}

/// A camera that exists takes a new height at once on a zoom step.
pub open spec fn zoomed_camera(camera: Option<TopDownCamera>, height: i64, delta: int) -> Option<
    TopDownCamera,
> {
    match camera {
        Some(c) => if delta != 0 {
            Some(TopDownCamera { translation: Vec3 { y: height, ..c.translation }, ..c })
        } else {
            camera
        },
        None => None,
    }
}

/// Applies a zoom step of `delta` to the configuration; a camera that exists
/// takes the new height at once.
pub fn handle_zoom(delta: i64, config: &mut TopDownCameraConfig, camera: &mut Option<TopDownCamera>)
    requires
        old(config).wf(),
        -1 <= delta <= 1,
        old(camera).is_some() ==> old(camera).unwrap().wf(),
    ensures
        *final(config) == zoomed(*old(config), delta as int),
        final(config).wf(),
        *final(camera) == zoomed_camera(*old(camera), final(config).height, delta as int),
        final(camera).is_some() ==> final(camera).unwrap().wf(),
{
    if delta == 0 {
        return ;
    }
    let change: i64 = if delta > 0 {
        config.zoom_step
    } else {
        -config.zoom_step
    };
    assert(change == delta * config.zoom_step) by {
        if delta > 0 {
            assert(delta == 1);
        } else {
            assert(delta == -1);
        }
    }
    config.height = clamp_i64(config.height - change, config.min_height, config.max_height);
    config.distance = clamp_i64(
        config.distance - change,
        config.min_height,
        config.max_height + DISTANCE_MARGIN,
    );
    match camera {
        Some(cam) => {
            cam.translation.y = config.height;
        },
        None => {},
    }
}

/// The smoothed prediction of where the camera's focus is heading.
#[derive(Clone, Copy, Debug, PartialEq, Eq, Structural)]
pub struct CameraLead {
    pub offset: Vec3,
}

impl CameraLead {
    pub open spec fn wf(&self) -> bool {
        &&& abs(self.offset.x as int) <= LEAD_BOUND
        &&& abs(self.offset.y as int) <= LEAD_BOUND
        &&& abs(self.offset.z as int) <= LEAD_BOUND
    }

    /// A lead of zero, as a new camera has.
    pub fn new() -> (r: CameraLead)
        ensures
            r.wf(),
            r.offset == (Vec3 { x: 0, y: 0, z: 0 }),
    {
        CameraLead { offset: Vec3 { x: 0, y: 0, z: 0 } }
    }
}

/// `cur` moved toward `target` by the weight `alpha` (scaled by `UNIT`).
pub open spec fn smooth(cur: int, target: int, alpha: int) -> int {
    cur + frac((target - cur) * alpha, UNIT as int)
}

/// One smoothing step lands between the start and the target.
pub proof fn lemma_smooth_between(cur: int, target: int, alpha: int)
    requires
        0 <= alpha <= UNIT,
    ensures
        cur <= target ==> cur <= smooth(cur, target, alpha) <= target,
        target <= cur ==> target <= smooth(cur, target, alpha) <= cur,
{
    let e = target - cur;
    lemma_frac_scale(e, alpha, UNIT as int);
    lemma_frac(e * alpha, UNIT as int);
    if e >= 0 {
        assert(e * alpha >= 0) by (nonlinear_arith)
            requires
                e >= 0,
                alpha >= 0,
        ;
    } else {
        assert(e * alpha <= 0) by (nonlinear_arith)
            requires
                e < 0,
                alpha >= 0,
        ;
    }
}

/// `cur` after `n` smoothing steps toward a fixed `target`.
pub open spec fn smoothed(cur: int, target: int, alpha: int, n: nat) -> int
    decreases n,
{
    if n == 0 {
        cur
    } else {
        smoothed(smooth(cur, target, alpha), target, alpha, (n - 1) as nat)
    }
}

/// One smoothing step closes the gap by at least one whenever the gap times
/// the weight reaches `UNIT`.
proof fn lemma_smooth_progress(cur: int, target: int, alpha: int)
    requires
        0 < alpha <= UNIT,
    ensures
        abs(target - smooth(cur, target, alpha)) <= abs(target - cur),
        abs(target - cur) * alpha >= UNIT ==> abs(target - smooth(cur, target, alpha)) <= abs(
            target - cur,
        ) - 1,
{
    lemma_smooth_between(cur, target, alpha);
    let e = target - cur;
    lemma_frac(e * alpha, UNIT as int);
    lemma_abs_mul(e, alpha);
    if abs(e) * alpha >= UNIT {
        let q = abs(frac(e * alpha, UNIT as int));
        assert(q >= 1) by (nonlinear_arith)
            requires
                abs(e) * alpha >= UNIT,
                abs(e) * alpha < (q + 1) * UNIT,
        ;
        if e >= 0 {
            assert(e * alpha >= 0) by (nonlinear_arith)
                requires
                    e >= 0,
                    alpha > 0,
            ;
        } else {
            assert(e * alpha <= 0) by (nonlinear_arith)
                requires
                    e < 0,
                    alpha > 0,
            ;
        }
    }
}

/// Smoothing toward a fixed target never overshoots it, and with a weight
/// `alpha > 0` it converges: after as many steps as the starting gap, the
/// gap left is below `UNIT / alpha`, the rounding limit of one step.
pub proof fn lemma_smoothing_converges(cur: int, target: int, alpha: int, n: nat)
    requires
        0 < alpha <= UNIT,
        n >= abs(target - cur),
    ensures
        abs(target - smoothed(cur, target, alpha, n)) * alpha < UNIT,
        cur <= target ==> cur <= smoothed(cur, target, alpha, n) <= target,
        target <= cur ==> target <= smoothed(cur, target, alpha, n) <= cur,
{
    lemma_smoothing_gap(cur, target, alpha, n);
    let g = abs(target - smoothed(cur, target, alpha, n));
    if g * alpha >= UNIT {
        assert(g <= 0);
        assert(g * alpha <= 0) by (nonlinear_arith)
            requires
                g <= 0,
                alpha > 0,
        ;
    }
}

proof fn lemma_smoothing_gap(cur: int, target: int, alpha: int, n: nat)
    requires
        0 < alpha <= UNIT,
    ensures
        abs(target - smoothed(cur, target, alpha, n)) * alpha < UNIT || abs(
            target - smoothed(cur, target, alpha, n),
        ) <= abs(target - cur) - n,
        cur <= target ==> cur <= smoothed(cur, target, alpha, n) <= target,
        target <= cur ==> target <= smoothed(cur, target, alpha, n) <= cur,
    decreases n,
{
    if n > 0 {
        let k = (n - 1) as nat;
        let prev = smoothed(cur, target, alpha, k);
        lemma_smoothing_gap(cur, target, alpha, k);
        lemma_smoothed_last(cur, target, alpha, k);
        lemma_smooth_progress(prev, target, alpha);
        lemma_smooth_between(prev, target, alpha);
        let g0 = abs(target - prev);
        let g1 = abs(target - smooth(prev, target, alpha));
        if g0 * alpha < UNIT {
            assert(g1 * alpha < UNIT) by (nonlinear_arith)
                requires
                    g1 <= g0,
                    g0 * alpha < UNIT,
                    alpha > 0,
                    g1 >= 0,
            ;
        }
    }
}

/// The last of `n + 1` steps is one step after the first `n`.
proof fn lemma_smoothed_last(cur: int, target: int, alpha: int, n: nat)
    ensures
        smoothed(cur, target, alpha, n + 1) == smooth(smoothed(cur, target, alpha, n), target, alpha),
    decreases n,
{
    reveal_with_fuel(smoothed, 2);
    if n > 0 {
        lemma_smoothed_last(smooth(cur, target, alpha), target, alpha, (n - 1) as nat);
    }
}

fn smooth_toward(cur: i64, target: i64, alpha: i64) -> (r: i64)
    requires
        abs(cur as int) <= CAMERA_BOUND,
        abs(target as int) <= CAMERA_BOUND,
        0 <= alpha <= UNIT,
    ensures
        r == smooth(cur as int, target as int, alpha as int),
        cur <= target ==> cur <= r <= target,
        target <= cur ==> target <= r <= cur,
{
    proof {
        lemma_smooth_between(cur as int, target as int, alpha as int);
        lemma_frac_scale((target - cur) as int, alpha as int, UNIT as int);
        assert(abs((target - cur) * alpha) <= 2 * CAMERA_BOUND * UNIT) by (nonlinear_arith)
            requires
                abs(target - cur) <= 2 * CAMERA_BOUND,
                0 <= alpha <= UNIT,
        ;
    }
    let diff = target - cur;
    cur + div_trunc((diff as i128) * (alpha as i128), UNIT)
}

/// Offset `(up, back)` of the eye from the focus: `distance` turned up by
/// `pitch` about the sideways axis.
pub open spec fn pitched_offset(c: TopDownCameraConfig) -> (int, int) {
    (frac(c.distance * sine(c.pitch as int), UNIT as int), frac(c.distance * cosine(c.pitch as int), UNIT as int))
}

fn pitched_offset_of(config: &TopDownCameraConfig) -> (r: (i64, i64))
    requires
        config.wf(),
    ensures
        (r.0 as int, r.1 as int) == pitched_offset(*config),
        abs(r.0 as int) <= LIMIT,
        abs(r.1 as int) <= LIMIT,
{
    let s = sine_of(config.pitch);
    let c = cosine_of(config.pitch);
    proof {
        lemma_frac_scale(config.distance as int, s as int, UNIT as int);
        lemma_frac_scale(config.distance as int, c as int, UNIT as int);
    }
    (mul_div(config.distance, s, UNIT), mul_div(config.distance, c, UNIT))
}

/// A new camera: at the pitched offset above and behind the origin, plus the
/// height, looking at the origin, with a lead of zero.
pub open spec fn spawn_pose(c: TopDownCameraConfig) -> (TopDownCamera, CameraLead) {
    let origin = Vec3 { x: 0, y: 0, z: 0 };
    let eye = Vec3 {
        x: 0,
        y: (pitched_offset(c).0 + c.height) as i64,
        z: pitched_offset(c).1 as i64,
    };
    (TopDownCamera { translation: eye, look_at: origin }, CameraLead { offset: origin })
}

/// Places a new camera for the configuration; see `spawn_pose`.
pub fn spawn_camera(config: &TopDownCameraConfig) -> (r: (TopDownCamera, CameraLead))
    requires
        config.wf(),
    ensures
        r.0.wf(),
        r.1.wf(),
        r == spawn_pose(*config),
{
    let (up, back) = pitched_offset_of(config);
    let eye = Vec3 { x: 0, y: up + config.height, z: back };
    (TopDownCamera { translation: eye, look_at: Vec3 { x: 0, y: 0, z: 0 } }, CameraLead::new())
}

/// The planar part of a velocity; none counts as standing still.
pub open spec fn planar_of(v: Option<Vec3>) -> (int, int) {
    match v {
        Some(v) => (v.x as int, v.z as int),
        None => (0, 0),
    }
}

/// The heading of a facing; none counts as facing forward.
pub open spec fn facing_dir(f: Option<PlayerFacing>) -> (int, int) {
    match f {
        Some(f) => heading(f.yaw as int),
        None => (0, -UNIT as int),
    }
}

/// Where the lead wants to be: the planar velocity by `velocity_lead`, plus
/// the heading by the planar speed times `heading_lead`.
pub open spec fn desired_lead(c: TopDownCameraConfig, v: (int, int), f: (int, int)) -> (int, int) {
    let u = UNIT as int;
    let ahead = frac(ceil_sqrt(norm2(v.0, v.1)) * c.heading_lead, u);
    (frac(v.0 * c.velocity_lead, u) + frac(f.0 * ahead, u), frac(v.1 * c.velocity_lead, u) + frac(
        f.1 * ahead,
        u,
    ))
}

/// A desired lead stays within `LEAD_BOUND` for every velocity and heading in range.
pub proof fn lemma_desired_lead_bound(c: TopDownCameraConfig, v: (int, int), f: (int, int))
    requires
        c.wf(),
        abs(v.0) <= LIMIT,
        abs(v.1) <= LIMIT,
        abs(f.0) <= UNIT,
        abs(f.1) <= UNIT,
    ensures
        abs(desired_lead(c, v, f).0) <= LEAD_BOUND,
        abs(desired_lead(c, v, f).1) <= LEAD_BOUND,
{
    let u = UNIT as int;
    let n = norm2(v.0, v.1);
    assert(0 <= v.0 * v.0 <= LIMIT * LIMIT && 0 <= v.1 * v.1 <= LIMIT * LIMIT) by (nonlinear_arith)
        requires
            abs(v.0) <= LIMIT,
            abs(v.1) <= LIMIT,
    ;
    crate::math::lemma_ceil_sqrt_exists(n);
    let speed = ceil_sqrt(n);
    crate::math::lemma_ceil_sqrt_least(n, speed, 2 * LIMIT);
    assert(0 <= speed * c.heading_lead <= 2 * LIMIT * LIMIT) by (nonlinear_arith)
        requires
            0 <= speed <= 2 * LIMIT,
            0 <= c.heading_lead <= LIMIT,
    ;
    assert(abs(v.0 * c.velocity_lead) <= LIMIT * LIMIT && abs(v.1 * c.velocity_lead) <= LIMIT
        * LIMIT) by (nonlinear_arith)
        requires
            abs(v.0) <= LIMIT,
            abs(v.1) <= LIMIT,
            0 <= c.velocity_lead <= LIMIT,
    ;
    lemma_frac(v.0 * c.velocity_lead, u);
    lemma_frac(v.1 * c.velocity_lead, u);
    let ahead = frac(speed * c.heading_lead, u);
    lemma_frac(speed * c.heading_lead, u);
    lemma_frac_scale(ahead, f.0, u);
    lemma_frac_scale(ahead, f.1, u);
    assert(f.0 * ahead == ahead * f.0 && f.1 * ahead == ahead * f.1) by (nonlinear_arith);
}

fn desired_lead_of(config: &TopDownCameraConfig, vx: i64, vz: i64, fx: i64, fz: i64) -> (r: (
    i64,
    i64,
))
    requires
        config.wf(),
        abs(vx as int) <= LIMIT,
        abs(vz as int) <= LIMIT,
        abs(fx as int) <= UNIT,
        abs(fz as int) <= UNIT,
    ensures
        (r.0 as int, r.1 as int) == desired_lead(*config, (vx as int, vz as int), (fx as int, fz as int)),
        abs(r.0 as int) <= LEAD_BOUND,
        abs(r.1 as int) <= LEAD_BOUND,
{
    let ghost n = norm2(vx as int, vz as int);
    assert(0 <= vx * vx <= LIMIT * LIMIT && 0 <= vz * vz <= LIMIT * LIMIT) by (nonlinear_arith)
        requires
            abs(vx as int) <= LIMIT,
            abs(vz as int) <= LIMIT,
    ;
    let sq: i128 = (vx as i128) * (vx as i128) + (vz as i128) * (vz as i128);
    let speed = ceil_sqrt_i128(sq);
    proof {
        crate::math::lemma_ceil_sqrt_least(n, speed as int, 2 * LIMIT);
        assert(0 <= speed * config.heading_lead <= 2 * LIMIT * LIMIT) by (nonlinear_arith)
            requires
                0 <= speed <= 2 * LIMIT,
                0 <= config.heading_lead <= LIMIT,
        ;
        assert(abs(vx * config.velocity_lead) <= LIMIT * LIMIT && abs(vz * config.velocity_lead)
            <= LIMIT * LIMIT) by (nonlinear_arith)
            requires
                abs(vx as int) <= LIMIT,
                abs(vz as int) <= LIMIT,
                0 <= config.velocity_lead <= LIMIT,
        ;
        lemma_frac(vx * config.velocity_lead, UNIT as int);
        lemma_frac(vz * config.velocity_lead, UNIT as int);
    }
    let ahead = mul_div(speed, config.heading_lead, UNIT);
    proof {
        lemma_frac(speed * config.heading_lead, UNIT as int);
        lemma_frac_scale(ahead as int, fx as int, UNIT as int);
        lemma_frac_scale(ahead as int, fz as int, UNIT as int);
        assert(fx * ahead == ahead * fx && fz * ahead == ahead * fz) by (nonlinear_arith);
    }
    let ax = mul_div(fx, ahead, UNIT);
    let az = mul_div(fz, ahead, UNIT);
    let lx = mul_div(vx, config.velocity_lead, UNIT);
    let lz = mul_div(vz, config.velocity_lead, UNIT);
    (lx + ax, lz + az)
}

/// A velocity the camera accepts: each planar component within `LIMIT`.
pub open spec fn velocity_in_range(v: Option<Vec3>) -> bool {
    match v {
        Some(v) => abs(v.x as int) <= LIMIT && abs(v.z as int) <= LIMIT,
        None => true,
    }
}

/// A player position the camera accepts: each component within `LIMIT`.
pub open spec fn position_in_range(p: Vec3) -> bool {
    abs(p.x as int) <= LIMIT && abs(p.y as int) <= LIMIT && abs(p.z as int) <= LIMIT
}

/// The camera and lead after following the player for one frame of `dt`.
pub open spec fn track(
    c: TopDownCameraConfig,
    position: Vec3,
    velocity: Option<Vec3>,
    facing: Option<PlayerFacing>,
    camera: TopDownCamera,
    lead: CameraLead,
    dt: int,
) -> (TopDownCamera, CameraLead) {
    let desired = desired_lead(c, planar_of(velocity), facing_dir(facing));
    let a = blend(c.lead_responsiveness as int, dt);
    let offset = Vec3 {
        x: smooth(lead.offset.x as int, desired.0, a) as i64,
        y: smooth(lead.offset.y as int, 0, a) as i64,
        z: smooth(lead.offset.z as int, desired.1, a) as i64,
    };
    let focus = Vec3 {
        x: (position.x + offset.x) as i64,
        y: (position.y + offset.y) as i64,
        z: (position.z + offset.z) as i64,
    };
    let off = pitched_offset(c);
    let b = blend(c.damping as int, dt);
    let eye = Vec3 {
        x: smooth(camera.translation.x as int, focus.x as int, b) as i64,
        y: smooth(camera.translation.y as int, focus.y + off.0 + c.height, b) as i64,
        z: smooth(camera.translation.z as int, focus.z + off.1, b) as i64,
    };
    (TopDownCamera { translation: eye, look_at: focus }, CameraLead { offset })
}

/// Follows the player for one frame of `dt` microseconds: the lead moves
/// toward `desired_lead`, the focus is the player's position plus the lead,
/// the eye moves toward the pitched offset above and behind the focus, and
/// the camera looks straight at the focus.
pub fn track_player(
    config: &TopDownCameraConfig,
    position: Vec3,
    velocity: Option<Vec3>,
    facing: Option<PlayerFacing>,
    camera: &mut TopDownCamera,
    lead: &mut CameraLead,
    dt: i64,
)
    requires
        config.wf(),
        position_in_range(position),
        velocity_in_range(velocity),
        facing.is_some() ==> facing.unwrap().wf(),
        old(camera).wf(),
        old(lead).wf(),
        0 <= dt <= LIMIT,
    ensures
        final(camera).wf(),
        final(lead).wf(),
        (*final(camera), *final(lead)) == track(
            *config,
            position,
            velocity,
            facing,
            *old(camera),
            *old(lead),
            dt as int,
        ),
{
    let (vx, vz) = match velocity {
        Some(v) => (v.x, v.z),
        None => (0, 0),
    };
    let (fx, fz) = match facing {
        Some(f) => heading_of(f.yaw),
        None => (0, -UNIT),
    };
    let (dx, dz) = desired_lead_of(config, vx, vz, fx, fz);
    let lead_alpha = blend_of(config.lead_responsiveness, dt);
    let lx = smooth_toward(lead.offset.x, dx, lead_alpha);
    let ly = smooth_toward(lead.offset.y, 0, lead_alpha);
    let lz = smooth_toward(lead.offset.z, dz, lead_alpha);
    lead.offset = Vec3 { x: lx, y: ly, z: lz };
    let focus = Vec3 { x: position.x + lx, y: position.y + ly, z: position.z + lz };
    let (up, back) = pitched_offset_of(config);
    let alpha = blend_of(config.damping, dt);
    let cx = smooth_toward(camera.translation.x, focus.x, alpha);
    let cy = smooth_toward(camera.translation.y, focus.y + up + config.height, alpha);
    let cz = smooth_toward(camera.translation.z, focus.z + back, alpha);
    camera.translation = Vec3 { x: cx, y: cy, z: cz };
    camera.look_at = focus;
}

/// The camera and lead after `n` frames of following a player that keeps
/// one position, velocity and facing.
pub open spec fn followed(
    c: TopDownCameraConfig,
    position: Vec3,
    velocity: Option<Vec3>,
    facing: Option<PlayerFacing>,
    camera: TopDownCamera,
    lead: CameraLead,
    dt: int,
    n: nat,
) -> (TopDownCamera, CameraLead)
    decreases n,
{
    if n == 0 {
        (camera, lead)
    } else {
        let next = track(c, position, velocity, facing, camera, lead, dt);
        followed(c, position, velocity, facing, next.0, next.1, dt, (n - 1) as nat)
    }
}

proof fn lemma_lead_is_smoothed(
    c: TopDownCameraConfig,
    position: Vec3,
    velocity: Option<Vec3>,
    facing: Option<PlayerFacing>,
    camera: TopDownCamera,
    lead: CameraLead,
    dt: int,
    n: nat,
)
    requires
        c.wf(),
        velocity_in_range(velocity),
        facing.is_some() ==> facing.unwrap().wf(),
        lead.wf(),
        0 <= dt <= LIMIT,
    ensures
        ({
            let d = desired_lead(c, planar_of(velocity), facing_dir(facing));
            let a = blend(c.lead_responsiveness as int, dt);
            let l = followed(c, position, velocity, facing, camera, lead, dt, n).1;
            &&& l.wf()
            &&& l.offset.x == smoothed(lead.offset.x as int, d.0, a, n)
            &&& l.offset.y == smoothed(lead.offset.y as int, 0, a, n)
            &&& l.offset.z == smoothed(lead.offset.z as int, d.1, a, n)
        }),
    decreases n,
{
    let d = desired_lead(c, planar_of(velocity), facing_dir(facing));
    let a = blend(c.lead_responsiveness as int, dt);
    crate::math::lemma_blend_bounds(c.lead_responsiveness as int, dt);
    match facing {
        Some(f) => crate::math::lemma_heading_bound(f.yaw as int),
        None => {},
    }
    lemma_desired_lead_bound(c, planar_of(velocity), facing_dir(facing));
    if n > 0 {
        let next = track(c, position, velocity, facing, camera, lead, dt);
        lemma_smooth_between(lead.offset.x as int, d.0, a);
        lemma_smooth_between(lead.offset.y as int, 0, a);
        lemma_smooth_between(lead.offset.z as int, d.1, a);
        assert(next.1.wf());
        lemma_lead_is_smoothed(c, position, velocity, facing, next.0, next.1, dt, (n - 1) as nat);
    }
}

/// For a player holding one velocity and facing, each lead component never
/// overshoots the desired lead and, with a positive smoothing weight `a`,
/// after as many frames as its starting gap it is within `UNIT / a` of it.
pub proof fn lemma_lead_converges(
    c: TopDownCameraConfig,
    position: Vec3,
    velocity: Option<Vec3>,
    facing: Option<PlayerFacing>,
    camera: TopDownCamera,
    lead: CameraLead,
    dt: int,
    n: nat,
)
    requires
        c.wf(),
        velocity_in_range(velocity),
        facing.is_some() ==> facing.unwrap().wf(),
        lead.wf(),
        0 <= dt <= LIMIT,
        blend(c.lead_responsiveness as int, dt) > 0,
        n >= abs(desired_lead(c, planar_of(velocity), facing_dir(facing)).0 - lead.offset.x),
        n >= abs(lead.offset.y as int),
        n >= abs(desired_lead(c, planar_of(velocity), facing_dir(facing)).1 - lead.offset.z),
    ensures
        ({
            let d = desired_lead(c, planar_of(velocity), facing_dir(facing));
            let a = blend(c.lead_responsiveness as int, dt);
            let l = followed(c, position, velocity, facing, camera, lead, dt, n).1.offset;
            &&& abs(d.0 - l.x) * a < UNIT
            &&& abs(0 - l.y) * a < UNIT
            &&& abs(d.1 - l.z) * a < UNIT
            &&& (lead.offset.x <= d.0 ==> lead.offset.x <= l.x <= d.0)
            &&& (d.0 <= lead.offset.x ==> d.0 <= l.x <= lead.offset.x)
            &&& (lead.offset.z <= d.1 ==> lead.offset.z <= l.z <= d.1)
            &&& (d.1 <= lead.offset.z ==> d.1 <= l.z <= lead.offset.z)
        }),
{
    let d = desired_lead(c, planar_of(velocity), facing_dir(facing));
    let a = blend(c.lead_responsiveness as int, dt);
    crate::math::lemma_blend_bounds(c.lead_responsiveness as int, dt);
    lemma_lead_is_smoothed(c, position, velocity, facing, camera, lead, dt, n);
    lemma_smoothing_converges(lead.offset.x as int, d.0, a, n);
    lemma_smoothing_converges(lead.offset.y as int, 0, a, n);
    lemma_smoothing_converges(lead.offset.z as int, d.1, a, n);
}

} // verus!

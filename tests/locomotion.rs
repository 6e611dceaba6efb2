use asphalt_saints::input::PlayerInput;
use asphalt_saints::math::{Vec3, FULL_TURN, HALF_TURN, QUARTER_TURN, UNIT};
use asphalt_saints::player::{drive_player, visual_yaw_weight, PlayerController, PlayerFacing};

const FRAME: i64 = 16_667;

fn forward_input() -> PlayerInput {
    let mut input = PlayerInput::idle();
    input.movement_y = UNIT;
    input
}

fn speed2(v: &Vec3) -> i64 {
    v.x * v.x + v.z * v.z
}

#[test]
fn walking_forward_for_two_seconds_settles_at_walk_speed() {
    let config = PlayerController::new();
    let input = forward_input();
    let mut facing = PlayerFacing { yaw: 0 };
    let mut velocity = Vec3 { x: 0, y: 0, z: 0 };
    for _ in 0..120 {
        drive_player(&config, &input, &mut facing, &mut velocity, FRAME);
        assert!(speed2(&velocity) <= 7_500 * 7_500);
    }
    assert_eq!(facing.yaw, 0);
    assert_eq!(velocity.x, 0);
    let forward = -velocity.z;
    assert!(forward <= 7_500);
    assert!(forward * 100 >= 7_500 * 99);
}

#[test]
fn first_frame_of_thrust_gains_acceleration_times_dt() {
    let config = PlayerController::new();
    let input = forward_input();
    let mut facing = PlayerFacing { yaw: 0 };
    let mut velocity = Vec3 { x: 0, y: 0, z: 0 };
    drive_player(&config, &input, &mut facing, &mut velocity, FRAME);
    // 500 mm/s of thrust, then 2.5 % of drag
    assert_eq!(velocity, Vec3 { x: 0, y: 0, z: -487 });
}

#[test]
fn zero_dt_changes_nothing() {
    let config = PlayerController::new();
    let mut input = forward_input();
    input.movement_x = UNIT;
    let mut facing = PlayerFacing { yaw: 1_234 };
    let mut velocity = Vec3 { x: 1_000, y: -300, z: -2_000 };
    drive_player(&config, &input, &mut facing, &mut velocity, 0);
    assert_eq!(facing.yaw, 1_234);
    assert_eq!(velocity, Vec3 { x: 1_000, y: -300, z: -2_000 });
}

#[test]
fn vertical_velocity_is_left_to_the_physics() {
    let config = PlayerController::new();
    let input = forward_input();
    let mut facing = PlayerFacing { yaw: 0 };
    let mut velocity = Vec3 { x: 0, y: -9_810, z: 0 };
    drive_player(&config, &input, &mut facing, &mut velocity, FRAME);
    assert_eq!(velocity.y, -9_810);
}

#[test]
fn braking_without_throttle_comes_to_rest_and_stays() {
    let config = PlayerController::new();
    let input = PlayerInput::idle();
    let mut facing = PlayerFacing { yaw: 0 };
    let mut velocity = Vec3 { x: 0, y: 0, z: -7_500 };
    let mut last = speed2(&velocity);
    let mut frames = 0;
    while speed2(&velocity) > 0 {
        drive_player(&config, &input, &mut facing, &mut velocity, FRAME);
        let now = speed2(&velocity);
        assert!(now < last);
        last = now;
        frames += 1;
        assert!(frames <= 7_500 / 600 + 1);
    }
    for _ in 0..30 {
        drive_player(&config, &input, &mut facing, &mut velocity, FRAME);
        assert_eq!(velocity, Vec3 { x: 0, y: 0, z: 0 });
    }
}

#[test]
fn top_speed_is_a_hard_bound() {
    let mut config = PlayerController::new();
    config.acceleration = 2_000_000;
    let mut input = forward_input();
    input.movement_x = UNIT / 3;
    for sprint in [false, true] {
        input.sprint = sprint;
        let max = if sprint { 12_500 } else { 7_500 };
        let mut facing = PlayerFacing { yaw: 0 };
        let mut velocity = Vec3 { x: 40_000, y: 0, z: 40_000 };
        for _ in 0..300 {
            drive_player(&config, &input, &mut facing, &mut velocity, 50_000);
            assert!(speed2(&velocity) <= max * max);
        }
    }
}

#[test]
fn releasing_sprint_cuts_down_to_walk_speed() {
    let config = PlayerController::new();
    let mut input = forward_input();
    input.sprint = true;
    let mut facing = PlayerFacing { yaw: 0 };
    let mut velocity = Vec3 { x: 0, y: 0, z: 0 };
    for _ in 0..120 {
        drive_player(&config, &input, &mut facing, &mut velocity, FRAME);
    }
    assert_eq!(velocity.z, -12_500);
    input.sprint = false;
    drive_player(&config, &input, &mut facing, &mut velocity, FRAME);
    assert_eq!(velocity.z, -7_500);
}

#[test]
fn facing_wraps_into_one_revolution() {
    let config = PlayerController::new();
    for dir in [UNIT, -UNIT] {
        let mut input = PlayerInput::idle();
        input.yaw_input = dir;
        let mut facing = PlayerFacing { yaw: 0 };
        let mut velocity = Vec3 { x: 0, y: 0, z: 0 };
        let mut total: i64 = 0;
        for _ in 0..1_000 {
            let before = facing.yaw;
            drive_player(&config, &input, &mut facing, &mut velocity, FRAME);
            assert!(facing.yaw >= 0 && facing.yaw < FULL_TURN);
            let step = (facing.yaw - before).rem_euclid(FULL_TURN);
            total += if dir > 0 { step } else { FULL_TURN - step };
        }
        // 58 410 units per second for 1 000 frames of 1/60 s, one frame at a time
        assert_eq!(total, 1_000 * 973);
    }
}

#[test]
fn steering_axis_and_turn_axis_add_and_clamp() {
    let config = PlayerController::new();
    let mut input = PlayerInput::idle();
    input.movement_x = UNIT;
    input.yaw_input = UNIT;
    let mut facing = PlayerFacing { yaw: 100 };
    let mut velocity = Vec3 { x: 0, y: 0, z: 0 };
    drive_player(&config, &input, &mut facing, &mut velocity, FRAME);
    // the sum is clamped to one full turn rate: 58 410 / 60
    assert_eq!(facing.yaw, 100 + 973);
    input.yaw_input = -UNIT;
    drive_player(&config, &input, &mut facing, &mut velocity, FRAME);
    assert_eq!(facing.yaw, 100 + 973);
}

#[test]
fn reversing_the_facing_turns_the_velocity_gradually() {
    let config = PlayerController::new();
    let input = forward_input();
    let mut facing = PlayerFacing { yaw: HALF_TURN };
    let mut velocity = Vec3 { x: 0, y: 0, z: -7_500 };
    let mut frames = 0;
    while velocity.z < 0 {
        let before = velocity;
        drive_player(&config, &input, &mut facing, &mut velocity, FRAME);
        // thrust (500) and drag (2.5 % of at most 7 500) bound one frame's change
        let dx = velocity.x - before.x;
        let dz = velocity.z - before.z;
        assert!(dx * dx + dz * dz <= 700 * 700);
        frames += 1;
        assert!(frames <= 60);
    }
    assert_eq!(frames, 13);
    for _ in 0..120 {
        drive_player(&config, &input, &mut facing, &mut velocity, FRAME);
    }
    assert_eq!(velocity, Vec3 { x: 0, y: 0, z: 7_500 });
}

#[test]
fn sideways_drift_is_damped_not_snapped() {
    let config = PlayerController::new();
    let input = forward_input();
    // facing a quarter turn left of the motion
    let mut facing = PlayerFacing { yaw: QUARTER_TURN };
    let mut velocity = Vec3 { x: 0, y: 0, z: -6_000 };
    drive_player(&config, &input, &mut facing, &mut velocity, FRAME);
    // 1 - e^(-1/6) of the drift goes, then 2.5 % of drag
    assert_eq!(velocity, Vec3 { x: -487, y: 0, z: -4_952 });
    for _ in 0..4 {
        drive_player(&config, &input, &mut facing, &mut velocity, FRAME);
    }
    assert!(velocity.z.abs() < velocity.x.abs());
    for _ in 0..60 {
        drive_player(&config, &input, &mut facing, &mut velocity, FRAME);
    }
    assert_eq!(velocity, Vec3 { x: -7_500, y: 0, z: 0 });
}

#[test]
fn visual_turns_only_under_input() {
    let config = PlayerController::new();
    let idle = PlayerInput::idle();
    assert_eq!(visual_yaw_weight(&config, &idle, FRAME), None);
    let mut small = PlayerInput::idle();
    small.movement_y = 400;
    assert_eq!(visual_yaw_weight(&config, &small, FRAME), None);
    let input = forward_input();
    // 1 - e^(-0.2) is 0.1813
    assert_eq!(visual_yaw_weight(&config, &input, FRAME), Some(1_812));
    let mut turning = PlayerInput::idle();
    turning.yaw_input = -UNIT;
    assert_eq!(visual_yaw_weight(&config, &turning, FRAME), Some(1_812));
    assert_eq!(visual_yaw_weight(&config, &turning, 0), Some(0));
}

#[test]
fn default_tuning() {
    let c = PlayerController::new();
    assert_eq!(c.walk_speed, 7_500);
    assert_eq!(c.sprint_speed, 12_500);
    assert_eq!(c.acceleration, 30_000);
    assert_eq!(c.braking, 36_000);
    assert_eq!(c.radius, 600);
}

#[test]
fn largest_admitted_values_stay_in_range() {
    let limit: i64 = 0x7fff_ffff;
    let config = PlayerController {
        walk_speed: limit,
        sprint_speed: limit,
        acceleration: limit,
        braking: limit,
        yaw_lerp_speed: limit,
        turn_speed: limit,
        lateral_damping: limit,
        drag: 0,
        radius: limit,
    };
    let mut input = forward_input();
    input.movement_x = -UNIT;
    input.sprint = true;
    let mut facing = PlayerFacing { yaw: FULL_TURN - 1 };
    let mut velocity = Vec3 { x: -limit, y: limit, z: limit };
    for _ in 0..5 {
        drive_player(&config, &input, &mut facing, &mut velocity, limit);
        assert!(facing.yaw >= 0 && facing.yaw < FULL_TURN);
        assert!((velocity.x as i128).pow(2) + (velocity.z as i128).pow(2) <= (limit as i128).pow(2));
        assert_eq!(velocity.y, limit);
    }
    assert_eq!(visual_yaw_weight(&config, &input, limit), Some(9_999));
}

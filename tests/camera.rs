use asphalt_saints::camera::{
    handle_zoom, spawn_camera, track_player, CameraLead, TopDownCamera, TopDownCameraConfig,
};
use asphalt_saints::math::{Vec3, UNIT};
use asphalt_saints::player::PlayerFacing;

const FRAME: i64 = 16_667;

fn spawned() -> (TopDownCameraConfig, TopDownCamera, CameraLead) {
    let config = TopDownCameraConfig::new();
    let (camera, lead) = spawn_camera(&config);
    (config, camera, lead)
}

#[test]
fn zooming_out_once_raises_the_camera_by_one_step() {
    let mut config = TopDownCameraConfig::new();
    assert_eq!(config.height, 16_000);
    assert_eq!(config.zoom_step, 2_000);
    assert_eq!(config.max_height, 40_000);
    let mut camera = None;
    handle_zoom(-1, &mut config, &mut camera);
    assert_eq!(config.height, 18_000);
    assert_eq!(config.distance, 20_000);
    assert_eq!(camera, None);
}

#[test]
fn zooming_in_fifteen_times_stops_at_the_lowest_height() {
    let mut config = TopDownCameraConfig::new();
    let mut camera = None;
    for _ in 0..15 {
        handle_zoom(1, &mut config, &mut camera);
        assert!(config.height >= 8_000);
        assert!(config.distance >= 8_000);
    }
    assert_eq!(config.height, 8_000);
    assert_eq!(config.min_height, 8_000);
    assert_eq!(config.distance, 8_000);
}

#[test]
fn zooming_out_stops_at_the_highest_height_and_distance() {
    let mut config = TopDownCameraConfig::new();
    let mut camera = None;
    for _ in 0..40 {
        handle_zoom(-1, &mut config, &mut camera);
        assert!(config.height <= 40_000);
        assert!(config.distance <= 44_000);
    }
    assert_eq!(config.height, 40_000);
    assert_eq!(config.distance, 44_000);
}

#[test]
fn any_run_of_zoom_steps_stays_in_bounds() {
    let mut config = TopDownCameraConfig::new();
    let mut camera = None;
    let mut seed: u32 = 7;
    for _ in 0..500 {
        seed = seed.wrapping_mul(1_103_515_245).wrapping_add(12_345);
        let delta = ((seed >> 16) % 3) as i64 - 1;
        handle_zoom(delta, &mut config, &mut camera);
        assert!(config.min_height <= config.height && config.height <= config.max_height);
        assert!(config.min_height <= config.distance && config.distance <= config.max_height + 4_000);
    }
}

#[test]
fn no_zoom_changes_nothing() {
    let (mut config, camera, _) = spawned();
    let before = config;
    let mut cam = Some(camera);
    handle_zoom(0, &mut config, &mut cam);
    assert_eq!(config, before);
    assert_eq!(cam, Some(camera));
}

#[test]
fn zoom_moves_an_existing_camera_to_the_new_height() {
    let (mut config, camera, _) = spawned();
    let mut cam = Some(camera);
    handle_zoom(1, &mut config, &mut cam);
    let moved = cam.unwrap();
    assert_eq!(moved.translation.y, 14_000);
    assert_eq!(moved.translation.x, camera.translation.x);
    assert_eq!(moved.translation.z, camera.translation.z);
}

#[test]
fn camera_spawns_above_and_behind_the_origin() {
    let (_, camera, lead) = spawned();
    // 18 m pitched by 55 degrees: 14.72 m up, 10.31 m back, plus 16 m of height
    assert_eq!(camera.translation, Vec3 { x: 0, y: 30_720, z: 10_314 });
    assert_eq!(camera.look_at, Vec3 { x: 0, y: 0, z: 0 });
    assert_eq!(lead.offset, Vec3 { x: 0, y: 0, z: 0 });
}

#[test]
fn lead_runs_ahead_of_a_moving_player() {
    let (config, mut camera, mut lead) = spawned();
    let position = Vec3 { x: 0, y: 1_200, z: 0 };
    let velocity = Some(Vec3 { x: 0, y: 0, z: -7_500 });
    let facing = Some(PlayerFacing { yaw: 0 });
    track_player(&config, position, velocity, facing, &mut camera, &mut lead, FRAME);
    assert_eq!(lead.offset, Vec3 { x: 0, y: 0, z: -606 });
    assert_eq!(camera.look_at, Vec3 { x: 0, y: 1_200, z: -606 });
    assert_eq!(camera.translation, Vec3 { x: 0, y: 30_834, z: 10_257 });
}

#[test]
fn lead_settles_on_the_desired_lead_without_overshoot() {
    let (config, mut camera, mut lead) = spawned();
    let position = Vec3 { x: 0, y: 1_200, z: 0 };
    let velocity = Some(Vec3 { x: 0, y: 0, z: -7_500 });
    let facing = Some(PlayerFacing { yaw: 0 });
    // desired: a quarter of the velocity plus the heading times 0.6 of the speed
    let desired = -7_500 / 4 - 7_500 * 6 / 10;
    for _ in 0..600 {
        let before = lead.offset.z;
        track_player(&config, position, velocity, facing, &mut camera, &mut lead, FRAME);
        assert!(lead.offset.z <= before);
        assert!(lead.offset.z >= desired);
    }
    assert!((lead.offset.z - desired).abs() * 951 < UNIT);
    assert_eq!(lead.offset.z, -6_365);
    assert_eq!(camera.translation, Vec3 { x: 0, y: 31_910, z: 3_959 });
}

#[test]
fn a_standing_player_without_facing_needs_no_lead() {
    let (config, mut camera, mut lead) = spawned();
    let position = Vec3 { x: 1_000, y: 1_200, z: 2_000 };
    track_player(&config, position, None, None, &mut camera, &mut lead, FRAME);
    assert_eq!(lead.offset, Vec3 { x: 0, y: 0, z: 0 });
    assert_eq!(camera.look_at, position);
    assert_eq!(camera.translation, Vec3 { x: 95, y: 30_834, z: 10_504 });
}

#[test]
fn zero_dt_leaves_the_camera_in_place() {
    let (config, mut camera, mut lead) = spawned();
    let before = camera.translation;
    let position = Vec3 { x: 5_000, y: 0, z: 5_000 };
    let velocity = Some(Vec3 { x: 3_000, y: 0, z: 0 });
    track_player(&config, position, velocity, None, &mut camera, &mut lead, 0);
    assert_eq!(camera.translation, before);
    assert_eq!(lead.offset, Vec3 { x: 0, y: 0, z: 0 });
    assert_eq!(camera.look_at, position);
}

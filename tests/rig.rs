use asphalt_saints::camera::TopDownCameraConfig;
use asphalt_saints::input::PlayerInput;
use asphalt_saints::math::{Vec3, UNIT};
use asphalt_saints::player::{PlayerController, PlayerFacing};
use asphalt_saints::rig::{step_frame, CameraRig, Player};

const FRAME: i64 = 16_667;

fn player() -> Player {
    Player {
        controller: PlayerController::new(),
        facing: PlayerFacing { yaw: 0 },
        position: Vec3 { x: 0, y: 1_200, z: 0 },
        velocity: Vec3 { x: 0, y: 0, z: 0 },
    }
}

#[test]
fn camera_is_spawned_once_on_entering_play() {
    let mut rig = CameraRig::new(TopDownCameraConfig::new());
    assert_eq!(rig.camera, None);
    rig.enter_play();
    let first = rig.camera.unwrap();
    assert_eq!(first.translation, Vec3 { x: 0, y: 30_720, z: 10_314 });
    let mut p = Some(player());
    let mut input = PlayerInput::idle();
    input.movement_y = UNIT;
    step_frame(&input, &mut p, &mut rig, FRAME);
    let moved = rig.camera.unwrap();
    rig.enter_play();
    assert_eq!(rig.camera.unwrap(), moved);
}

#[test]
fn a_frame_moves_the_player_then_the_camera() {
    let mut rig = CameraRig::new(TopDownCameraConfig::new());
    rig.enter_play();
    let mut p = Some(player());
    let mut input = PlayerInput::idle();
    input.movement_y = UNIT;
    step_frame(&input, &mut p, &mut rig, FRAME);
    let body = p.unwrap();
    assert_eq!(body.velocity, Vec3 { x: 0, y: 0, z: -487 });
    // the camera reads the velocity of this frame: a lead toward -z
    assert!(rig.lead.offset.z < 0);
    assert_eq!(rig.camera.unwrap().look_at.z, rig.lead.offset.z);
}

#[test]
fn zoom_reaches_the_camera_in_the_same_frame() {
    let mut rig = CameraRig::new(TopDownCameraConfig::new());
    rig.enter_play();
    let mut p = Some(player());
    let mut input = PlayerInput::idle();
    input.camera_zoom = -1;
    step_frame(&input, &mut p, &mut rig, 0);
    assert_eq!(rig.config.height, 18_000);
    // with no time passing the camera keeps the height the zoom gave it
    assert_eq!(rig.camera.unwrap().translation.y, 18_000);
}

#[test]
fn without_a_player_only_the_zoom_happens() {
    let mut rig = CameraRig::new(TopDownCameraConfig::new());
    rig.enter_play();
    let before = rig;
    let mut p = None;
    let mut input = PlayerInput::idle();
    input.camera_zoom = 1;
    step_frame(&input, &mut p, &mut rig, FRAME);
    assert_eq!(p, None);
    assert_eq!(rig.config.height, 14_000);
    assert_eq!(rig.lead, before.lead);
    assert_eq!(rig.camera.unwrap().translation.x, before.camera.unwrap().translation.x);
    assert_eq!(rig.camera.unwrap().translation.y, 14_000);
}

#[test]
fn without_a_camera_the_player_still_moves() {
    let mut rig = CameraRig::new(TopDownCameraConfig::new());
    let mut p = Some(player());
    let mut input = PlayerInput::idle();
    input.movement_y = UNIT;
    step_frame(&input, &mut p, &mut rig, FRAME);
    assert_eq!(rig.camera, None);
    assert_eq!(p.unwrap().velocity.z, -487);
}

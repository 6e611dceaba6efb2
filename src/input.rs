use vstd::prelude::*;

use crate::math::UNIT;

verus! {

/// What the player asks for in one frame, as the input layer gathered it.
///
/// Axes are scaled by `UNIT`: `movement_x` and `yaw_input` steer (a positive
/// value turns toward a greater yaw), `movement_y` throttles (positive
/// forward). `look_delta_x` and `look_delta_y` are the pointer's motion in
/// thousandths of a pixel.
/// `camera_zoom` is `-1` to zoom out, `1` to zoom in, `0` to keep the zoom.
#[derive(Clone, Copy, Debug, PartialEq, Eq, Structural)]
pub struct PlayerInput {
    pub movement_x: i64,
    pub movement_y: i64,
    pub look_delta_x: i64,
    pub look_delta_y: i64,
    pub yaw_input: i64,
    pub fire_primary: bool,
    pub fire_secondary: bool,
    pub sprint: bool,
    pub interact: bool,
    pub jump: bool,
    pub camera_zoom: i64,
}

impl PlayerInput {
    /// Axes within `[-UNIT, UNIT]` and a zoom step of `-1`, `0` or `1`.
    pub open spec fn wf(&self) -> bool {
        &&& -UNIT <= self.movement_x <= UNIT
        &&& -UNIT <= self.movement_y <= UNIT
        &&& -UNIT <= self.yaw_input <= UNIT
        &&& -1 <= self.camera_zoom <= 1
    }

    /// No movement, no turn, no buttons and no zoom.
    pub fn idle() -> (r: PlayerInput)
        ensures
            r.wf(),
            r.movement_x == 0 && r.movement_y == 0 && r.yaw_input == 0,
            r.look_delta_x == 0 && r.look_delta_y == 0,
            !r.fire_primary && !r.fire_secondary && !r.sprint && !r.interact && !r.jump,
            r.camera_zoom == 0,
    {
        PlayerInput {
            movement_x: 0,
            movement_y: 0,
            look_delta_x: 0,
            look_delta_y: 0,
            yaw_input: 0,
            fire_primary: false,
            fire_secondary: false,
            sprint: false,
            interact: false,
            jump: false,
            camera_zoom: 0,
        }
    }
}

} // verus!

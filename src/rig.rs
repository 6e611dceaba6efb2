use vstd::prelude::*;

use crate::camera::{
    handle_zoom, position_in_range, spawn_camera, spawn_pose, track, track_player, zoomed,
    zoomed_camera, CameraLead, TopDownCamera, TopDownCameraConfig,
};
use crate::input::PlayerInput;
use crate::math::{Vec3, LIMIT};
use crate::player::{drive, drive_player, velocity_ok, PlayerController, PlayerFacing};

verus! {

/// The player's body: its tuning, facing, and the position and velocity that
/// the physics keeps.
#[derive(Clone, Copy, Debug, PartialEq, Eq, Structural)]
pub struct Player {
    pub controller: PlayerController,
    pub facing: PlayerFacing,
    pub position: Vec3,
    pub velocity: Vec3,
}

impl Player {
    pub open spec fn wf(&self) -> bool {
        &&& self.controller.wf()
        &&& self.facing.wf()
        &&& position_in_range(self.position)
        &&& velocity_ok(self.velocity)
    }
}

/// The camera side of a frame: the configuration that zoom tunes, the camera
/// once it exists, and its lead.
#[derive(Clone, Copy, Debug, PartialEq, Eq, Structural)]
pub struct CameraRig {
    pub config: TopDownCameraConfig,
    pub camera: Option<TopDownCamera>,
    pub lead: CameraLead,
}

impl CameraRig {
    pub open spec fn wf(&self) -> bool {
        &&& self.config.wf()
        &&& (self.camera.is_some() ==> self.camera.unwrap().wf())
        &&& self.lead.wf()
    }

    /// A rig with the given configuration and no camera yet.
    pub fn new(config: TopDownCameraConfig) -> (r: CameraRig)
        requires
            config.wf(),
        ensures
            r.wf(),
            r.config == config,
            r.camera.is_none(),
    {
        CameraRig { config, camera: None, lead: CameraLead::new() }
    }

    /// Entering play: a rig without a camera spawns one from its
    /// configuration; a rig with one keeps it.
    pub fn enter_play(&mut self)
        requires
            old(self).wf(),
        ensures
            final(self).wf(),
            final(self).config == old(self).config,
            final(self).camera.is_some(),
            old(self).camera.is_some() ==> *final(self) == *old(self),
            old(self).camera.is_none() ==> (final(self).camera.unwrap(), final(self).lead)
                == spawn_pose(old(self).config),
    {
        if self.camera.is_none() {
            let (cam, lead) = spawn_camera(&self.config);
            self.camera = Some(cam);
            self.lead = lead;
        }
    }
}

/// The player after one frame of locomotion.
pub open spec fn moved(p: Player, input: PlayerInput, dt: int) -> Player {
    let (yaw, v) = drive(
        p.controller,
        input,
        p.facing.yaw as int,
        (p.velocity.x as int, p.velocity.z as int),
        dt,
    );
    Player {
        facing: PlayerFacing { yaw: yaw as i64 },
        velocity: Vec3 { x: v.0 as i64, y: p.velocity.y, z: v.1 as i64 },
        ..p
    }
}

/// One frame: locomotion, then zoom, then the camera follows the player.
/// Without a player or without a camera there is nothing to follow.
pub open spec fn frame(input: PlayerInput, player: Option<Player>, rig: CameraRig, dt: int) -> (
    Option<Player>,
    CameraRig,
) {
    let player2 = match player {
        Some(p) => Some(moved(p, input, dt)),
        None => None,
    };
    let config = zoomed(rig.config, input.camera_zoom as int);
    let camera = zoomed_camera(rig.camera, config.height, input.camera_zoom as int);
    let still = CameraRig { config, camera, lead: rig.lead };
    match player2 {
        Some(p) => match camera {
            Some(c) => {
                let (c2, l2) = track(
                    config,
                    p.position,
                    Some(p.velocity),
                    Some(p.facing),
                    c,
                    rig.lead,
                    dt,
                );
                (player2, CameraRig { config, camera: Some(c2), lead: l2 })
            },
            None => (player2, still),
        },
        None => (player2, still),
    }
}

/// Runs one frame of `dt` microseconds; see `frame`.
pub fn step_frame(input: &PlayerInput, player: &mut Option<Player>, rig: &mut CameraRig, dt: i64)
    requires
        input.wf(),
        old(player).is_some() ==> old(player).unwrap().wf(),
        old(rig).wf(),
        0 <= dt <= LIMIT,
    ensures
        final(player).is_some() ==> final(player).unwrap().wf(),
        final(rig).wf(),
        (*final(player), *final(rig)) == frame(*input, *old(player), *old(rig), dt as int),
{
    let moved_player: Option<Player> = match *player {
        Some(body) => {
            let mut facing = body.facing;
            let mut velocity = body.velocity;
            drive_player(&body.controller, input, &mut facing, &mut velocity, dt);
            Some(Player { facing, velocity, ..body })
        },
        None => None,
    };
    *player = moved_player;
    let mut config = rig.config;
    let mut camera = rig.camera;
    handle_zoom(input.camera_zoom, &mut config, &mut camera);
    let mut lead = rig.lead;
    match moved_player {
        Some(p) => match camera {
            Some(c0) => {
                let mut c = c0;
                track_player(
                    &config,
                    p.position,
                    Some(p.velocity),
                    Some(p.facing),
                    &mut c,
                    &mut lead,
                    dt,
                );
                camera = Some(c);
            },
            None => {},
        },
        None => {},
    }
    *rig = CameraRig { config, camera, lead };
}

} // verus!

//! Plain velocity integration for simple entities.
use vstd::prelude::*;

use crate::components::Location;

verus! {

/// A per-tick displacement.
#[derive(Clone, Copy, PartialEq, Eq, Structural, Debug)]
pub struct Velocity {
    pub x: i32,
    pub y: i32,
}

/// Overwrite an entity's velocity with freshly requested input.
pub fn player_input(velocity: &mut Velocity, new_velocity: &Velocity)
    ensures
        *final(velocity) == *new_velocity,
{
    velocity.x = new_velocity.x;
    velocity.y = new_velocity.y;
}

/// Integrate a velocity into a location, clamp it to a fixed
/// twenty-by-twenty board, and consume the velocity.
pub fn move_entity(location: &mut Location, velocity: &mut Velocity)
    requires
        -1000000 <= old(location).x + old(velocity).x <= 1000000,
        -1000000 <= old(location).y + old(velocity).y <= 1000000,
    ensures
        final(velocity).x == 0 && final(velocity).y == 0,
        final(location).x == clamp_coord(old(location).x + old(velocity).x, 20),
        final(location).y == clamp_coord(old(location).y + old(velocity).y, 20),
{
    location.x = location.x + velocity.x;
    location.y = location.y + velocity.y;
    velocity.x = 0;
    velocity.y = 0;
    let width: i32 = 20;
    let height: i32 = 20;
    if location.x < 0 {
        location.x = 0;
    }
    if location.x > width - 1 {
        location.x = width - 1;
    }
    if location.y < 0 {
        location.y = 0;
    }
    if location.y > height - 1 {
        location.y = height - 1;
    }
}

/// A coordinate clamped into `[0, dim)`.
pub open spec fn clamp_coord(v: int, dim: int) -> int {
    if v < 0 {
        0
    } else if v > dim - 1 {
        dim - 1
    } else {
        v
    }
}

} // verus!

//! The free-look camera's basis and how the observer moves along it.
//!
//! The basis follows from the yaw and the pitch alone. Their sines and
//! cosines come from the caller, who has the platform's math library; all
//! that is computed from them is computed here.

use vstd::prelude::*;
use crate::arith::{product, product_of};
use crate::controls::{Axis, Direction};
use crate::vector::Vector;

verus! {

/// The vectors along which the observer looks and moves, each of the length
/// given to [`derive_basis`]: callers add them to a position as they are.
#[derive(Clone, Copy, PartialEq, Eq, Debug, Structural)]
pub struct Basis {
    pub front: Vector,
    pub right: Vector,
    pub up: Vector,
}

/// The direction of view for a yaw and a pitch, before it is normalized:
/// `(cos yaw * cos pitch, sin pitch, sin yaw * cos pitch)`.
pub open spec fn view_of(cos_yaw: u32, sin_yaw: u32, cos_pitch: u32, sin_pitch: u32) -> Vector {
    Vector {
        x: product_of(cos_yaw, cos_pitch),
        y: sin_pitch,
        z: product_of(sin_yaw, cos_pitch),
    }
}

/// The basis for a yaw and a pitch given by their cosines and sines.
///
/// `front` is the direction of view, normalized and scaled; `right` is
/// `front` crossed with `world_up`, in that order, normalized and scaled;
/// `up` is `right` crossed with `front`, normalized and scaled.
pub open spec fn basis_of(
    cos_yaw: u32,
    sin_yaw: u32,
    cos_pitch: u32,
    sin_pitch: u32,
    world_up: Vector,
    speed_scale: u32,
) -> Basis {
    let front = view_of(cos_yaw, sin_yaw, cos_pitch, sin_pitch).normalized_of().scaled_by(
        speed_scale,
    );
    let right = front.cross_of(world_up).normalized_of().scaled_by(speed_scale);
    let up = right.cross_of(front).normalized_of().scaled_by(speed_scale);
    Basis { front, right, up }
}

/// Derives the camera's basis from the cosines and sines of its yaw and
/// pitch.
pub fn derive_basis(
    cos_yaw: u32,
    sin_yaw: u32,
    cos_pitch: u32,
    sin_pitch: u32,
    world_up: Vector,
    speed_scale: u32,
) -> (basis: Basis)
    ensures
        basis == basis_of(cos_yaw, sin_yaw, cos_pitch, sin_pitch, world_up, speed_scale),
{
    let view: Vector = Vector {
        x: product(cos_yaw, cos_pitch),
        y: sin_pitch,
        z: product(sin_yaw, cos_pitch),
    };
    let front: Vector = view.normalize().scale(speed_scale);
    let right: Vector = front.cross(world_up).normalize().scale(speed_scale);
    let up: Vector = right.cross(front).normalize().scale(speed_scale);
    Basis { front, right, up }
}

/// The basis depends on the angles, the up vector and the scale alone:
/// deriving it again from the same values gives the same three vectors.
pub proof fn lemma_basis_repeats(
    first: (u32, u32, u32, u32),
    second: (u32, u32, u32, u32),
    world_up: Vector,
    speed_scale: u32,
)
    requires
        first == second,
    ensures
        basis_of(first.0, first.1, first.2, first.3, world_up, speed_scale) == basis_of(
            second.0,
            second.1,
            second.2,
            second.3,
            world_up,
            speed_scale,
        ),
{
}

/// The vector that a move in `direction` follows.
pub open spec fn along_of(direction: Direction, basis: Basis, world_up: Vector) -> Vector {
    match direction.axis_of() {
        Axis::Front => basis.front,
        Axis::Right => basis.right,
        Axis::WorldUp => world_up,
    }
}

/// Where one move takes the observer: the position plus or minus the
/// move's vector times the speed, by the sign of the direction.
pub open spec fn moved(
    position: Vector,
    direction: Direction,
    basis: Basis,
    world_up: Vector,
    move_speed: u32,
) -> Vector {
    let step = along_of(direction, basis, world_up).scaled_by(move_speed);
    if direction.sign_of() == 1 {
        position.plus_of(step)
    } else {
        position.minus_of(step)
    }
}

/// Displaces a position by one move: along the basis for forward, back, left
/// and right, along the world's up vector for up and down.
pub fn apply_move(
    position: Vector,
    direction: Direction,
    basis: &Basis,
    world_up: Vector,
    move_speed: u32,
) -> (place: Vector)
    ensures
        place == moved(position, direction, *basis, world_up, move_speed),
{
    let along: Vector = match direction.axis() {
        Axis::Front => basis.front,
        Axis::Right => basis.right,
        Axis::WorldUp => world_up,
    };
    let step: Vector = along.scale(move_speed);
    if direction.sign() == 1 {
        position.plus(step)
    } else {
        position.minus(step)
    }
}

} // verus!

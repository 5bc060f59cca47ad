//! The free-look camera's pitch limit.
//!
//! Yaw and pitch are angles in radians, carried as single-precision encodings
//! (see [`crate::single`]). [`apply_look`] adds the pointer's motion to both
//! and keeps the pitch from reaching the poles, where the camera's basis would
//! collapse.

use vstd::prelude::*;
use vstd::arithmetic::power2::{pow2, lemma2_to64, lemma_pow2_adds};
use crate::arith::{negate, negation_of, product, product_of, sum, sum_of};
use crate::single::{below, encodes_nan, gt, lt, scaled_magnitude, scaled_value};

verus! {

/// The encoding of 1.5, the highest pitch the camera takes, just under a
/// quarter turn.
pub const PITCH_MAX: u32 = 0x3FC0_0000;

/// The encoding of -1.5, the lowest pitch the camera takes.
pub const PITCH_MIN: u32 = 0xBFC0_0000;

/// The pitch limit in the scale of [`scaled_value`]: 1.5 times two to the
/// power 149.
pub open spec fn pitch_bound() -> int {
    3 * (pow2(148) as int)
}

/// The pitch that the camera takes for a requested pitch: the nearer limit
/// when the request lies beyond one, the request itself otherwise. A NaN is
/// beyond neither limit and passes through unchanged.
pub open spec fn clamped_pitch(pitch: u32) -> u32 {
    if below(PITCH_MAX, pitch) {
        PITCH_MAX
    } else if below(pitch, PITCH_MIN) {
        PITCH_MIN
    } else {
        pitch
    }
}

/// The two limits encode 1.5 and -1.5.
pub proof fn lemma_pitch_limits()
    ensures
        !encodes_nan(PITCH_MAX),
        !encodes_nan(PITCH_MIN),
        scaled_value(PITCH_MAX) == pitch_bound(),
        scaled_value(PITCH_MIN) == -pitch_bound(),
{
    lemma2_to64();
    lemma_pow2_adds(22, 126);
    assert(scaled_magnitude(PITCH_MAX) == (0x0080_0000 + 0x0040_0000) * pow2(126));
    assert(scaled_magnitude(PITCH_MIN) == (0x0080_0000 + 0x0040_0000) * pow2(126));
    assert((0x0080_0000 + 0x0040_0000) * pow2(126) == 3 * (0x0040_0000 * pow2(126)))
        by (nonlinear_arith);
}

/// Limits a pitch to the closed range from -1.5 to 1.5.
pub fn clamp_pitch(pitch: u32) -> (clamped: u32)
    ensures
        clamped == clamped_pitch(pitch),
        encodes_nan(pitch) ==> clamped == pitch,
        !encodes_nan(pitch) ==> !encodes_nan(clamped) && -pitch_bound() <= scaled_value(clamped)
            <= pitch_bound(),
        !encodes_nan(pitch) && scaled_value(pitch) > pitch_bound() ==> clamped == PITCH_MAX,
        !encodes_nan(pitch) && scaled_value(pitch) < -pitch_bound() ==> clamped == PITCH_MIN,
        !encodes_nan(pitch) && -pitch_bound() <= scaled_value(pitch) <= pitch_bound()
            ==> clamped == pitch,
{
    proof {
        lemma_pitch_limits();
    }
    if gt(pitch, PITCH_MAX) {
        PITCH_MAX
    } else if lt(pitch, PITCH_MIN) {
        PITCH_MIN
    } else {
        pitch
    }
}

/// The yaw and the pitch after one tick of pointer motion.
///
/// The yaw gains `delta_x * elapsed * look_speed` and is never limited. The
/// pitch gains `delta_y * elapsed * -look_speed`, so that moving the pointer
/// up looks up, and is limited by [`clamped_pitch`]. Both products are
/// multiplied from the left.
pub open spec fn looked(
    yaw: u32,
    pitch: u32,
    delta_x: u32,
    delta_y: u32,
    elapsed: u32,
    look_speed: u32,
) -> (u32, u32) {
    (
        sum_of(yaw, product_of(product_of(delta_x, elapsed), look_speed)),
        clamped_pitch(
            sum_of(pitch, product_of(product_of(delta_y, elapsed), negation_of(look_speed))),
        ),
    )
}

/// Turns the view by what the pointer moved since the previous tick, and
/// returns the new yaw and pitch.
pub fn apply_look(
    yaw: u32,
    pitch: u32,
    delta_x: u32,
    delta_y: u32,
    elapsed: u32,
    look_speed: u32,
) -> (turned: (u32, u32))
    ensures
        turned == looked(yaw, pitch, delta_x, delta_y, elapsed, look_speed),
        !encodes_nan(turned.1) ==> -pitch_bound() <= scaled_value(turned.1) <= pitch_bound(),
{
    let new_yaw: u32 = sum(yaw, product(product(delta_x, elapsed), look_speed));
    let raw_pitch: u32 = sum(pitch, product(product(delta_y, elapsed), negate(look_speed)));
    proof {
        lemma_pitch_limits();
    }
    (new_yaw, clamp_pitch(raw_pitch))
}

/// Clamping a clamped pitch changes nothing.
pub proof fn lemma_clamp_idempotent(pitch: u32)
    ensures
        clamped_pitch(clamped_pitch(pitch)) == clamped_pitch(pitch),
{
    lemma_pitch_limits();
}

/// Clamping keeps the order of pitches: a request that is not above another
/// is not clamped to a pitch above the other's.
pub proof fn lemma_clamp_monotone(low: u32, high: u32)
    requires
        !encodes_nan(low),
        !encodes_nan(high),
        scaled_value(low) <= scaled_value(high),
    ensures
        scaled_value(clamped_pitch(low)) <= scaled_value(clamped_pitch(high)),
{
    lemma_pitch_limits();
}

} // verus!

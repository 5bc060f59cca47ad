use binary_star::look::{apply_look, clamp_pitch, PITCH_MAX, PITCH_MIN};

fn clamp(pitch: f32) -> f32 {
    f32::from_bits(clamp_pitch(pitch.to_bits()))
}

/// The pitch after one frame of pointer motion, before it is limited.
fn turned(pitch: f32, delta_y: f32, elapsed: f32, look_speed: f32) -> f32 {
    pitch + delta_y * elapsed * -look_speed
}

fn sample() -> Vec<u32> {
    let fractions: [u32; 7] = [0, 1, 0x003F_FFFF, 0x0040_0000, 0x0040_0001, 0x007F_FFFE, 0x007F_FFFF];
    let mut out: Vec<u32> = Vec::new();
    let mut exponent: u32 = 0;
    while exponent < 256 {
        for fraction in fractions {
            let bits = (exponent << 23) | fraction;
            out.push(bits);
            out.push(bits | 0x8000_0000);
        }
        exponent += 1;
    }
    out
}

#[test]
fn limits_encode_one_and_a_half() {
    assert_eq!(PITCH_MAX, 1.5f32.to_bits());
    assert_eq!(PITCH_MIN, (-1.5f32).to_bits());
}

#[test]
fn pitch_near_the_top_caps_at_exactly_the_limit() {
    // The pointer's vertical motion counts against the pitch, so it is a
    // large upward (negative) motion that drives 1.49 past the upper limit.
    let raw = turned(1.49, -5000.0, 0.016, 0.1);
    assert!(raw > 1.5);
    assert_eq!(clamp_pitch(raw.to_bits()), 1.5f32.to_bits());
}

#[test]
fn large_downward_motion_caps_at_the_lower_limit() {
    let raw = turned(1.49, 5000.0, 0.016, 0.1);
    assert!(raw < -1.5);
    assert_eq!(clamp_pitch(raw.to_bits()), (-1.5f32).to_bits());
}

#[test]
fn small_motion_leaves_the_pitch_alone() {
    let raw = turned(0.25, 3.0, 0.016, 0.1);
    assert_eq!(clamp_pitch(raw.to_bits()), raw.to_bits());
    assert_eq!(clamp(1.49), 1.49);
    assert_eq!(clamp(-1.49), -1.49);
}

#[test]
fn the_limits_themselves_are_kept() {
    assert_eq!(clamp_pitch(PITCH_MAX), PITCH_MAX);
    assert_eq!(clamp_pitch(PITCH_MIN), PITCH_MIN);
    assert_eq!(clamp_pitch(PITCH_MAX + 1), PITCH_MAX);
    assert_eq!(clamp_pitch(PITCH_MAX - 1), PITCH_MAX - 1);
    assert_eq!(clamp_pitch(PITCH_MIN + 1), PITCH_MIN);
    assert_eq!(clamp_pitch(PITCH_MIN - 1), PITCH_MIN - 1);
}

#[test]
fn zeros_keep_their_sign() {
    assert_eq!(clamp_pitch(0.0f32.to_bits()), 0.0f32.to_bits());
    assert_eq!(clamp_pitch((-0.0f32).to_bits()), (-0.0f32).to_bits());
}

#[test]
fn infinities_are_clamped() {
    assert_eq!(clamp_pitch(f32::INFINITY.to_bits()), PITCH_MAX);
    assert_eq!(clamp_pitch(f32::NEG_INFINITY.to_bits()), PITCH_MIN);
}

#[test]
fn nan_passes_through_unchanged() {
    let nan = f32::NAN.to_bits();
    assert_eq!(clamp_pitch(nan), nan);
    assert_eq!(clamp_pitch(0xFFC0_0001), 0xFFC0_0001);
}

#[test]
fn clamp_matches_the_hardware_comparisons() {
    for bits in sample() {
        let pitch = f32::from_bits(bits);
        let first = if pitch > 1.5 { 1.5 } else { pitch };
        let expected = if first < -1.5 { -1.5 } else { first };
        assert_eq!(clamp_pitch(bits), expected.to_bits(), "bits {:#x}", bits);
    }
}

#[test]
fn clamped_pitch_lies_within_the_limits() {
    for bits in sample() {
        let clamped = clamp(f32::from_bits(bits));
        if !f32::from_bits(bits).is_nan() {
            assert!(clamped >= -1.5 && clamped <= 1.5, "bits {:#x}", bits);
        }
    }
}

#[test]
fn clamping_twice_is_clamping_once() {
    for bits in sample() {
        let once = clamp_pitch(bits);
        assert_eq!(clamp_pitch(once), once, "bits {:#x}", bits);
    }
}

#[test]
fn clamping_keeps_the_order() {
    let values: Vec<f32> = vec![-1.0e30, -2.0, -1.5, -1.49, -0.0, 0.0, 0.3, 1.49, 1.5, 1.51, 7.0e20];
    for &low in &values {
        for &high in &values {
            if low <= high {
                assert!(clamp(low) <= clamp(high), "{} {}", low, high);
            }
        }
    }
}

fn look(yaw: f32, pitch: f32, delta: (f32, f32), elapsed: f32, look_speed: f32) -> (f32, f32) {
    let (yaw, pitch) = apply_look(
        yaw.to_bits(),
        pitch.to_bits(),
        delta.0.to_bits(),
        delta.1.to_bits(),
        elapsed.to_bits(),
        look_speed.to_bits(),
    );
    (f32::from_bits(yaw), f32::from_bits(pitch))
}

#[test]
fn apply_look_adds_the_pointer_motion() {
    let (yaw, pitch) = look(1.18, 0.25, (12., -7.), 0.016, 0.1);
    assert_eq!(yaw, 1.18 + 12. * 0.016 * 0.1);
    assert_eq!(pitch, 0.25 + -7. * 0.016 * -0.1);
    assert!(yaw > 1.18 && pitch > 0.25);
}

#[test]
fn apply_look_caps_the_pitch_at_exactly_the_limit() {
    let (_, pitch) = look(0., 1.49, (0., -5000.), 0.016, 0.1);
    assert_eq!(pitch.to_bits(), 1.5f32.to_bits());
    let (_, pitch) = look(0., 1.49, (0., 5000.), 0.016, 0.1);
    assert_eq!(pitch.to_bits(), (-1.5f32).to_bits());
}

#[test]
fn apply_look_never_limits_the_yaw() {
    let (yaw, _) = look(1.18, 0., (1.0e9, 0.), 0.5, 0.1);
    assert_eq!(yaw, 1.18 + 1.0e9 * 0.5 * 0.1);
    let (yaw, _) = look(1.18, 0., (-1.0e9, 0.), 0.5, 0.1);
    assert_eq!(yaw, 1.18 + -1.0e9 * 0.5 * 0.1);
}

#[test]
fn apply_look_matches_the_hardware() {
    let mut state: u64 = 0x2545_F491_4F6C_DD1D;
    let mut draw = |low: f32, high: f32| -> f32 {
        state = state.wrapping_mul(6364136223846793005).wrapping_add(1442695040888963407);
        low + (high - low) * ((state >> 40) as f32 / (1u64 << 24) as f32)
    };
    for _ in 0..50_000 {
        let yaw = draw(-10., 10.);
        let pitch = draw(-1.5, 1.5);
        let delta = (draw(-300., 300.), draw(-300., 300.));
        let elapsed = draw(0., 0.05);
        let speed = draw(0.01, 1.);
        let (new_yaw, new_pitch) = look(yaw, pitch, delta, elapsed, speed);
        let raw = pitch + delta.1 * elapsed * -speed;
        let capped = if raw > 1.5 { 1.5 } else { raw };
        let capped = if capped < -1.5 { -1.5 } else { capped };
        assert_eq!(new_yaw.to_bits(), (yaw + delta.0 * elapsed * speed).to_bits());
        assert_eq!(new_pitch.to_bits(), capped.to_bits());
    }
}

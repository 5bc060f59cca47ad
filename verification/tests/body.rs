use binary_star::body::{Body, Tint};
use binary_star::vector::Vector;

fn vector(x: f32, y: f32, z: f32) -> Vector {
    Vector { x: x.to_bits(), y: y.to_bits(), z: z.to_bits() }
}

#[test]
fn a_new_body_holds_what_it_was_given() {
    let position = vector(-10., 0., 0.);
    let velocity = vector(0.1, 0., -0.1);
    let acceleration = vector(0., 0., 0.);
    let mass = 1.0e10f32.to_bits();
    assert!(Body::accepts_mass(mass));
    let body = Body::new(position, velocity, acceleration, 5.0f32.to_bits(), mass);
    assert_eq!(body.position, position);
    assert_eq!(body.velocity, velocity);
    assert_eq!(body.acceleration, acceleration);
    assert_eq!(f32::from_bits(body.radius), 5.0);
    assert_eq!(f32::from_bits(body.mass), 1.0e10);
    assert_eq!(f32::from_bits(body.position.x), -10.0);
    assert_eq!(f32::from_bits(body.velocity.z), -0.1);
}

#[test]
fn a_new_body_is_yellow() {
    let zero = vector(0., 0., 0.);
    let body = Body::new(zero, zero, zero, 2.5f32.to_bits(), 9.0e10f32.to_bits());
    assert_eq!(body.color, Tint::Yellow);
}

#[test]
fn only_a_mass_above_zero_is_accepted() {
    assert!(Body::accepts_mass(1.0e10f32.to_bits()));
    assert!(Body::accepts_mass(f32::MIN_POSITIVE.to_bits()));
    assert!(Body::accepts_mass(1));
    assert!(Body::accepts_mass(f32::INFINITY.to_bits()));
    assert!(!Body::accepts_mass(0.0f32.to_bits()));
    assert!(!Body::accepts_mass((-0.0f32).to_bits()));
    assert!(!Body::accepts_mass((-1.0f32).to_bits()));
    assert!(!Body::accepts_mass(f32::NEG_INFINITY.to_bits()));
    assert!(!Body::accepts_mass(f32::NAN.to_bits()));
}

#[test]
fn accepted_masses_are_those_the_hardware_calls_positive() {
    let fractions: [u32; 4] = [0, 1, 0x0040_0000, 0x007F_FFFF];
    let mut exponent: u32 = 0;
    while exponent < 256 {
        for fraction in fractions {
            for sign in [0u32, 0x8000_0000] {
                let bits = sign | (exponent << 23) | fraction;
                assert_eq!(Body::accepts_mass(bits), f32::from_bits(bits) > 0.0, "bits {:#x}", bits);
            }
        }
        exponent += 1;
    }
}

use binary_star::body::{center_of_mass, cubed_distance, step_pair};

fn body(position: (f32, f32, f32), velocity: (f32, f32, f32), mass: f32) -> Body {
    Body::new(
        vector(position.0, position.1, position.2),
        vector(velocity.0, velocity.1, velocity.2),
        vector(0., 0., 0.),
        1.0f32.to_bits(),
        mass.to_bits(),
    )
}

fn number(bits: u32) -> f32 {
    f32::from_bits(bits)
}

fn gravity() -> f32 {
    6.67 * 10.0_f32.powf(-11.)
}

/// The horizontal distance between two bodies, to the third power, as the
/// hardware computes it step by step.
fn stepwise_cube(from: &Body, to: &Body) -> f32 {
    let dx = number(to.position.x) - number(from.position.x);
    let dz = number(to.position.z) - number(from.position.z);
    let squared = dx * dx + dz * dz;
    squared * squared.sqrt()
}

/// One tick of both bodies, each pulled by the other as it stood before.
fn tick(first: &mut Body, second: &mut Body) {
    step_pair(first, second, gravity().to_bits());
}

fn distance(first: &Body, second: &Body) -> f32 {
    let dx = number(second.position.x) - number(first.position.x);
    let dz = number(second.position.z) - number(first.position.z);
    (dx * dx + dz * dz).sqrt()
}

fn stars() -> (Body, Body) {
    (
        body((-10., 0., 0.), (0.1, 0., -0.1), 1.0e10),
        body((10., 0., 0.), (-0.1, 0., 0.1), 9.0e10),
    )
}

#[test]
fn update_follows_the_force_law() {
    let mut star = body((-10., 2., 3.), (0.5, 0.25, -0.5), 1.0e10);
    let other = body((10., 7., -4.), (0., 0., 0.), 9.0e10);
    let g = gravity();
    let cubed = stepwise_cube(&star, &other);
    let before = star;
    star.update(g.to_bits(), other.position, other.mass);

    let dx: f32 = 10. - -10.;
    let dz: f32 = -4. - 3.;
    let ax = (g * 9.0e10 * dx) / cubed;
    let az = (g * 9.0e10 * dz) / cubed;
    assert_eq!(number(star.acceleration.x), ax);
    assert_eq!(number(star.acceleration.z), az);
    assert_eq!(number(star.velocity.x), 0.5 + ax);
    assert_eq!(number(star.velocity.z), -0.5 + az);
    assert_eq!(number(star.position.x), -10. + (0.5 + ax));
    assert_eq!(number(star.position.z), 3. + (-0.5 + az));
    assert!(ax > 0. && az < 0.);
    assert_eq!(star.mass, before.mass);
    assert_eq!(star.radius, before.radius);
    assert_eq!(star.color, before.color);
}

#[test]
fn update_leaves_the_vertical_acceleration_alone() {
    let mut star = Body::new(
        vector(-10., 2., 3.),
        vector(0.5, 0.25, -0.5),
        vector(7., 0.125, 9.),
        1.0f32.to_bits(),
        1.0e10f32.to_bits(),
    );
    let other = body((10., 7., -4.), (0., 0., 0.), 9.0e10);
    star.update(gravity().to_bits(), other.position, other.mass);
    assert_eq!(number(star.acceleration.y), 0.125);
    assert_eq!(number(star.velocity.y), 0.25 + 0.125);
    assert_eq!(number(star.position.y), 2. + (0.25 + 0.125));
    // The horizontal acceleration is computed afresh, not added to.
    assert!(number(star.acceleration.x) < 1.);
    assert!(number(star.acceleration.z).abs() < 1.);
}

#[test]
fn update_overwrites_the_acceleration_every_tick() {
    let (mut first, second) = stars();
    let mut again = first;
    again.acceleration = vector(100., 0., -100.);
    first.update(gravity().to_bits(), second.position, second.mass);
    again.update(gravity().to_bits(), second.position, second.mass);
    assert_eq!(first.acceleration, again.acceleration);
}

#[test]
fn update_on_coincident_bodies_is_no_number() {
    let mut star = body((1., 0., 2.), (0., 0., 0.), 1.0e10);
    let other = body((1., 5., 2.), (0., 0., 0.), 9.0e10);
    assert_eq!(number(cubed_distance(star.position, other.position)), 0.);
    star.update(gravity().to_bits(), other.position, other.mass);
    assert!(number(star.acceleration.x).is_nan());
    assert!(number(star.velocity.x).is_nan());
    assert!(number(star.position.z).is_nan());
    star.update(gravity().to_bits(), other.position, other.mass);
    assert!(number(star.position.x).is_nan());
}

#[test]
fn paired_updates_pull_with_equal_and_opposite_force() {
    let (mut first, mut second) = stars();
    tick(&mut first, &mut second);
    let (m1, m2) = (number(first.mass), number(second.mass));
    let fx1 = m1 * number(first.acceleration.x);
    let fx2 = m2 * number(second.acceleration.x);
    let fz1 = m1 * number(first.acceleration.z);
    let fz2 = m2 * number(second.acceleration.z);
    assert!(fx1 > 0. && fx2 < 0.);
    assert!((fx1 + fx2).abs() <= 1.0e-5 * fx1.abs());
    assert!((fz1 + fz2).abs() <= 1.0e-5 * fx1.abs());
}

#[test]
fn equal_masses_accelerate_in_exact_opposition() {
    let mut first = body((-10., 0., 3.), (0., 0., 0.), 4.0e10);
    let mut second = body((10., 0., -2.), (0., 0., 0.), 4.0e10);
    tick(&mut first, &mut second);
    assert_eq!(number(first.acceleration.x), -number(second.acceleration.x));
    assert_eq!(number(first.acceleration.z), -number(second.acceleration.z));
}

#[test]
fn the_stars_approach_in_the_early_ticks() {
    let (mut first, mut second) = stars();
    let mut last = distance(&first, &second);
    assert_eq!(last, 20.);
    for _ in 0..20 {
        tick(&mut first, &mut second);
        let now = distance(&first, &second);
        assert!(now < last, "{} before, {} after", last, now);
        last = now;
    }
}

#[test]
fn separated_stars_stay_finite() {
    let (mut first, mut second) = stars();
    for _ in 0..2000 {
        tick(&mut first, &mut second);
        for star in [first, second] {
            for bits in [
                star.position.x,
                star.position.y,
                star.position.z,
                star.velocity.x,
                star.velocity.y,
                star.velocity.z,
            ] {
                assert!(number(bits).is_finite());
            }
        }
    }
}

#[test]
fn the_center_of_equal_masses_is_halfway() {
    let bodies = vec![
        body((-10., 0., 0.), (0., 0., 0.), 5.0e10),
        body((10., 0., 0.), (0., 0., 0.), 5.0e10),
    ];
    let center = center_of_mass(&bodies);
    assert_eq!(number(center.x), 0.);
    assert_eq!(number(center.y), 0.);
    assert_eq!(number(center.z), 0.);
}

#[test]
fn the_center_of_one_body_is_its_place_at_height_zero() {
    let center = center_of_mass(&vec![body((3., 8., -4.), (1., 1., 1.), 2.0e10)]);
    assert_eq!(center, vector(3., 0., -4.));
}

#[test]
fn the_center_leans_towards_the_heavier_body() {
    let bodies = vec![
        body((-10., 4., 2.), (0., 0., 0.), 1.0e10),
        body((10., -6., 6.), (0., 0., 0.), 9.0e10),
    ];
    let center = center_of_mass(&bodies);
    let x = (9.0e10f32 * 10. + 1.0e10f32 * -10.) / (9.0e10f32 + 1.0e10f32);
    let z = (9.0e10f32 * 6. + 1.0e10f32 * 2.) / (9.0e10f32 + 1.0e10f32);
    assert_eq!(number(center.x), x);
    assert_eq!(number(center.z), z);
    assert_eq!(center.y, 0);
    assert_eq!(x, 8.);
}

#[test]
fn the_center_folds_the_bodies_from_the_first_on() {
    let bodies = vec![
        body((1.5, 0., -2.), (0., 0., 0.), 3.0),
        body((-7.25, 1., 0.5), (0., 0., 0.), 0.7),
        body((100., 2., 33.), (0., 0., 0.), 11.0),
        body((0.1, 3., 0.2), (0., 0., 0.), 1.0e-3),
    ];
    let mut mass = number(bodies[0].mass);
    let mut x = number(bodies[0].position.x);
    let mut z = number(bodies[0].position.z);
    for next in &bodies[1..] {
        let (m, px, pz) = (number(next.mass), number(next.position.x), number(next.position.z));
        let sum_x = m * px + mass * x;
        let sum_z = m * pz + mass * z;
        mass = m + mass;
        x = sum_x / mass;
        z = sum_z / mass;
    }
    let center = center_of_mass(&bodies);
    assert_eq!(number(center.x), x);
    assert_eq!(number(center.z), z);
}

#[test]
fn the_center_hardly_depends_on_the_order() {
    let mut bodies = vec![
        body((1.5, 0., -2.), (0., 0., 0.), 3.0),
        body((-7.25, 1., 0.5), (0., 0., 0.), 0.7),
        body((100., 2., 33.), (0., 0., 0.), 11.0),
    ];
    let forward = center_of_mass(&bodies);
    bodies.reverse();
    let backward = center_of_mass(&bodies);
    assert!((number(forward.x) - number(backward.x)).abs() < 1.0e-4);
    assert!((number(forward.z) - number(backward.z)).abs() < 1.0e-4);
}

#[test]
fn paired_updates_use_the_state_before_the_tick() {
    let (mut first, mut second) = stars();
    let (before_first, before_second) = (first, second);
    step_pair(&mut first, &mut second, gravity().to_bits());

    let mut alone_first = before_first;
    alone_first.update(gravity().to_bits(), before_second.position, before_second.mass);
    let mut alone_second = before_second;
    alone_second.update(gravity().to_bits(), before_first.position, before_first.mass);
    assert_eq!(first, alone_first);
    assert_eq!(second, alone_second);

    // Fed the first body's new position, the second would end elsewhere.
    let mut late_second = before_second;
    late_second.update(gravity().to_bits(), first.position, first.mass);
    assert_ne!(second, late_second);
}

#[test]
fn the_distance_is_the_same_from_either_body() {
    let (first, second) = stars();
    assert_eq!(
        cubed_distance(first.position, second.position),
        cubed_distance(second.position, first.position)
    );
    let other = body((3.5, 1., -0.25), (0., 0., 0.), 1.);
    assert_eq!(
        cubed_distance(first.position, other.position),
        cubed_distance(other.position, first.position)
    );
}

#[test]
fn the_cubed_distance_of_a_three_four_five_triangle() {
    let from = vector(1., 100., 2.);
    let to = vector(4., -100., 6.);
    assert_eq!(number(cubed_distance(from, to)), 125.);
    assert_eq!(number(cubed_distance(from, from)), 0.);
}

#[test]
fn the_cubed_distance_matches_the_hardware() {
    let (first, second) = stars();
    assert_eq!(number(cubed_distance(first.position, second.position)), 8000.);
    let a = body((-1.25, 0., 7.5), (0., 0., 0.), 1.);
    let b = body((3.1, 0., -0.7), (0., 0., 0.), 1.);
    assert_eq!(number(cubed_distance(a.position, b.position)), stepwise_cube(&a, &b));
    let exact = ((3.1f64 + 1.25).powi(2) + (-0.7f64 - 7.5).powi(2)).powf(1.5);
    assert!((stepwise_cube(&a, &b) as f64 - exact).abs() < 1.0e-4 * exact);
}

#[test]
fn the_center_of_two_bodies_does_not_depend_on_the_order() {
    let first = body((-7.25, 1., 0.5), (0., 0., 0.), 0.7);
    let second = body((100., 2., 33.), (0., 0., 0.), 11.0);
    assert_eq!(center_of_mass(&vec![first, second]), center_of_mass(&vec![second, first]));
    let (first, second) = stars();
    assert_eq!(center_of_mass(&vec![first, second]), center_of_mass(&vec![second, first]));
}

#[test]
fn paired_pulls_point_at_each_other() {
    let mut first = body((-3., 0., 8.), (0., 0., 0.), 2.0e9);
    let mut second = body((5., 0., -1.), (0., 0., 0.), 7.0e11);
    tick(&mut first, &mut second);
    assert!(number(first.acceleration.x) > 0. && number(second.acceleration.x) < 0.);
    assert!(number(first.acceleration.z) < 0. && number(second.acceleration.z) > 0.);
}

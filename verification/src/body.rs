//! The stars: their state, the force law that advances them, and their
//! center of mass.
//!
//! Every scalar is a single-precision encoding (see [`crate::single`]) and
//! every sum, product and quotient is the correctly rounded one of
//! [`crate::arith`]. The force acts in the horizontal plane only: the
//! vertical axis takes no part in it.

use vstd::prelude::*;
use crate::arith::{
    encodes_zero,
    lemma_nan_difference_turns,
    lemma_square_of_negation,
    lemma_zero_difference_turns,
    lemma_negation,
    root,
    root_of,
    lemma_difference_turns,
    lemma_product_sign,
    lemma_quotient_sign,
    lemma_sum_commutes,
    negation_of,
    difference,
    difference_of,
    product,
    product_of,
    quotient,
    quotient_of,
    sum,
    sum_of,
};
use crate::single::{below, encodes_nan, lemma_magnitude_order, lt, sign_of};
use crate::vector::Vector;

verus! {

/// The colours a body is drawn in.
#[derive(Clone, Copy, PartialEq, Eq, Debug, Structural)]
pub enum Tint {
    Yellow,
}

/// One massive point object.
#[derive(Clone, Copy, PartialEq, Eq, Debug, Structural)]
pub struct Body {
    /// Where the body is.
    pub position: Vector,
    /// How far the body moves in one tick.
    pub velocity: Vector,
    /// The acceleration that the latest tick computed.
    pub acceleration: Vector,
    /// A drawing hint, not used in the physics.
    pub radius: u32,
    /// The mass, which the physics needs above zero.
    pub mass: u32,
    /// A drawing hint, not used in the physics.
    pub color: Tint,
}

/// The horizontal distance between two positions, to the third power: the
/// sum of the squared separations along the two horizontal axes, times its
/// own root.
pub open spec fn cubed_distance_of(from: Vector, to: Vector) -> u32 {
    let dx = difference_of(to.x, from.x);
    let dz = difference_of(to.z, from.z);
    let squared = sum_of(product_of(dx, dx), product_of(dz, dz));
    product_of(squared, root_of(squared))
}

/// The horizontal distance between two positions, to the third power.
pub fn cubed_distance(from: Vector, to: Vector) -> (cubed: u32)
    ensures
        cubed == cubed_distance_of(from, to),
{
    let dx: u32 = difference(to.x, from.x);
    let dz: u32 = difference(to.z, from.z);
    let squared: u32 = sum(product(dx, dx), product(dz, dz));
    product(squared, root(squared))
}

/// A separation and its reverse have the same square.
proof fn lemma_square_turns(a: u32, b: u32)
    ensures
        product_of(difference_of(a, b), difference_of(a, b)) == product_of(
            difference_of(b, a),
            difference_of(b, a),
        ),
{
    let ahead: u32 = difference_of(a, b);
    let back: u32 = difference_of(b, a);
    if encodes_nan(ahead) {
        lemma_nan_difference_turns(a, b);
        assert(ahead == back);
    } else if encodes_zero(ahead) {
        lemma_zero_difference_turns(a, b);
        assert(product_of(ahead, ahead) == product_of(back, back));
    } else {
        lemma_difference_turns(a, b);
        lemma_square_of_negation(ahead);
        assert(product_of(ahead, ahead) == product_of(back, back));
    }
}

/// Two bodies are as far from each other either way.
pub proof fn lemma_distance_is_mutual(from: Vector, to: Vector)
    ensures
        cubed_distance_of(from, to) == cubed_distance_of(to, from),
{
    lemma_square_turns(to.x, from.x);
    lemma_square_turns(to.z, from.z);
}

impl Body {
    /// Whether the body can take part in the simulation: its mass encodes a
    /// number above zero.
    pub open spec fn well_formed(self) -> bool {
        below(0u32, self.mass)
    }

    /// Whether `mass` can be the mass of a body: it encodes a number above
    /// zero, so neither a zero nor a negative number nor a NaN.
    pub fn accepts_mass(mass: u32) -> (accepted: bool)
        ensures
            accepted == below(0u32, mass),
    {
        lt(0, mass)
    }

    /// A yellow body with the given state. The mass must be above zero; what
    /// the physics makes of any other mass is undefined, so none is taken.
    pub fn new(
        position: Vector,
        velocity: Vector,
        acceleration: Vector,
        radius: u32,
        mass: u32,
    ) -> (body: Body)
        requires
            below(0u32, mass),
        ensures
            body == (Body { position, velocity, acceleration, radius, mass, color: Tint::Yellow }),
            body.well_formed(),
    {
        Body { position, velocity, acceleration, radius, mass, color: Tint::Yellow }
    }

    /// The acceleration along one horizontal axis that a mass exerts from
    /// `separation` away along that axis: `g * other_mass * separation /
    /// cubed_distance`, multiplied from the left.
    pub open spec fn pull_of(g: u32, other_mass: u32, separation: u32, cubed_distance: u32) -> u32 {
        quotient_of(product_of(product_of(g, other_mass), separation), cubed_distance)
    }

    /// This body one tick later, under the pull of one other mass.
    ///
    /// `cubed_distance` is the horizontal distance between the two, to the
    /// third power. The horizontal acceleration is computed afresh from the
    /// separations along the two horizontal axes; the vertical acceleration
    /// stays what it was. The velocity takes the new acceleration first, the
    /// position takes the new velocity after it. Radius, mass and colour stay.
    pub open spec fn updated(
        self,
        g: u32,
        other_position: Vector,
        other_mass: u32,
        cubed_distance: u32,
    ) -> Body {
        let acceleration = Vector {
            x: Body::pull_of(
                g,
                other_mass,
                difference_of(other_position.x, self.position.x),
                cubed_distance,
            ),
            y: self.acceleration.y,
            z: Body::pull_of(
                g,
                other_mass,
                difference_of(other_position.z, self.position.z),
                cubed_distance,
            ),
        };
        let velocity = self.velocity.plus_of(acceleration);
        let position = self.position.plus_of(velocity);
        Body { position, velocity, acceleration, ..self }
    }

    /// This body one tick later, under the pull of a mass at
    /// `other_position`.
    pub open spec fn pulled(self, g: u32, other_position: Vector, other_mass: u32) -> Body {
        self.updated(
            g,
            other_position,
            other_mass,
            cubed_distance_of(self.position, other_position),
        )
    }

    /// Advances this body by one tick under the pull of one other mass, with
    /// the gravitational constant `g`.
    ///
    /// Where the two share their horizontal position the new acceleration is
    /// no number, and neither is anything computed from it on later ticks.
    pub fn update(&mut self, g: u32, other_position: Vector, other_mass: u32)
        ensures
            *final(self) == old(self).pulled(g, other_position, other_mass),
            old(self).well_formed() ==> final(self).well_formed(),
    {
        let cubed: u32 = cubed_distance(self.position, other_position);
        self.update_at(g, other_position, other_mass, cubed);
    }

    /// Advances this body by one tick under the pull of one other mass at a
    /// horizontal distance whose third power the caller has.
    fn update_at(
        &mut self,
        g: u32,
        other_position: Vector,
        other_mass: u32,
        cubed_distance: u32,
    )
        ensures
            *final(self) == old(self).updated(g, other_position, other_mass, cubed_distance),
            old(self).well_formed() ==> final(self).well_formed(),
    {
        let strength: u32 = product(g, other_mass);
        let dx: u32 = difference(other_position.x, self.position.x);
        let dz: u32 = difference(other_position.z, self.position.z);
        self.acceleration.x = quotient(product(strength, dx), cubed_distance);
        self.acceleration.z = quotient(product(strength, dz), cubed_distance);
        self.velocity = self.velocity.plus(self.acceleration);
        self.position = self.position.plus(self.velocity);
    }
}

/// Advances two bodies by one tick, each under the pull of the other as it
/// stood before the tick: the second body does not see where the first has
/// moved to.
pub fn step_pair(first: &mut Body, second: &mut Body, g: u32)
    ensures
        *final(first) == old(first).pulled(g, old(second).position, old(second).mass),
        *final(second) == old(second).pulled(g, old(first).position, old(first).mass),
{
    let first_position: Vector = first.position;
    let first_mass: u32 = first.mass;
    let second_position: Vector = second.position;
    let second_mass: u32 = second.mass;
    first.update(g, second_position, second_mass);
    second.update(g, first_position, first_mass);
}

/// Along one axis, the pulls that two masses exert on each other.
proof fn lemma_axis_opposes(
    g: u32,
    mass: u32,
    other_mass: u32,
    place: u32,
    other_place: u32,
    cubed_distance: u32,
)
    requires
        below(0u32, mass),
        below(0u32, other_mass),
        !encodes_zero(difference_of(other_place, place)),
    ensures
        ({
            let pull = Body::pull_of(
                g,
                other_mass,
                difference_of(other_place, place),
                cubed_distance,
            );
            let back = Body::pull_of(g, mass, difference_of(place, other_place), cubed_distance);
            &&& !encodes_nan(pull) && !encodes_nan(back) ==> sign_of(pull) != sign_of(back)
            &&& !encodes_nan(pull) && mass == other_mass ==> back == negation_of(pull)
        }),
{
    let away: u32 = difference_of(other_place, place);
    let toward: u32 = difference_of(place, other_place);
    let pull: u32 = Body::pull_of(g, other_mass, away, cubed_distance);
    let back: u32 = Body::pull_of(g, mass, toward, cubed_distance);
    lemma_magnitude_order(mass, 0);
    lemma_magnitude_order(other_mass, 0);
    assert(!sign_of(mass) && !sign_of(other_mass));
    if !encodes_nan(pull) {
        lemma_quotient_sign(product_of(product_of(g, other_mass), away), cubed_distance);
        lemma_product_sign(product_of(g, other_mass), away);
        lemma_product_sign(g, other_mass);
        lemma_difference_turns(other_place, place);
        assert(toward == negation_of(away));
        if !encodes_nan(back) {
            lemma_quotient_sign(product_of(product_of(g, mass), toward), cubed_distance);
            lemma_product_sign(product_of(g, mass), toward);
            lemma_product_sign(g, mass);
        }
    }
}

/// Two bodies pull each other in opposite directions: along each horizontal
/// axis on which they are apart, the accelerations that a paired update
/// gives them have opposite signs wherever both are numbers. Bodies of equal
/// mass get accelerations that are exact negations of each other.
///
/// With unequal masses the two forces, mass times acceleration, agree only
/// up to rounding, which no exact statement captures.
pub proof fn lemma_pulls_oppose(first: Body, second: Body, g: u32)
    requires
        first.well_formed(),
        second.well_formed(),
    ensures
        ({
            let a = first.pulled(g, second.position, second.mass).acceleration;
            let b = second.pulled(g, first.position, first.mass).acceleration;
            let apart_x = !encodes_zero(difference_of(second.position.x, first.position.x));
            let apart_z = !encodes_zero(difference_of(second.position.z, first.position.z));
            &&& apart_x && !encodes_nan(a.x) && !encodes_nan(b.x) ==> sign_of(a.x) != sign_of(b.x)
            &&& apart_z && !encodes_nan(a.z) && !encodes_nan(b.z) ==> sign_of(a.z) != sign_of(b.z)
            &&& apart_x && !encodes_nan(a.x) && first.mass == second.mass ==> b.x == negation_of(
                a.x,
            )
            &&& apart_z && !encodes_nan(a.z) && first.mass == second.mass ==> b.z == negation_of(
                a.z,
            )
        }),
{
    lemma_distance_is_mutual(first.position, second.position);
    let cubed_distance: u32 = cubed_distance_of(first.position, second.position);
    if !encodes_zero(difference_of(second.position.x, first.position.x)) {
        lemma_axis_opposes(
            g,
            first.mass,
            second.mass,
            first.position.x,
            second.position.x,
            cubed_distance,
        );
    }
    if !encodes_zero(difference_of(second.position.z, first.position.z)) {
        lemma_axis_opposes(
            g,
            first.mass,
            second.mass,
            first.position.z,
            second.position.z,
            cubed_distance,
        );
    }
}

/// A mass and where it sits in the horizontal plane.
#[derive(Clone, Copy, PartialEq, Eq, Debug, Structural)]
pub struct Weight {
    pub mass: u32,
    pub x: u32,
    pub z: u32,
}

impl Weight {
    /// The mass of a body at its horizontal position.
    pub open spec fn of(body: Body) -> Weight {
        Weight { mass: body.mass, x: body.position.x, z: body.position.z }
    }

    /// The two weights as one: the masses added, the position the
    /// mass-weighted mean of the two positions. The weight that joins stands
    /// on the left of every sum.
    pub open spec fn joined_by(self, next: Weight) -> Weight {
        let total = sum_of(next.mass, self.mass);
        Weight {
            mass: total,
            x: quotient_of(
                sum_of(product_of(next.mass, next.x), product_of(self.mass, self.x)),
                total,
            ),
            z: quotient_of(
                sum_of(product_of(next.mass, next.z), product_of(self.mass, self.z)),
                total,
            ),
        }
    }

    /// The first `count` bodies as one weight, joined from the first on.
    pub open spec fn of_first(bodies: Seq<Body>, count: nat) -> Weight
        decreases count,
    {
        if count <= 1 {
            Weight::of(bodies[0])
        } else {
            Weight::of_first(bodies, (count - 1) as nat).joined_by(Weight::of(bodies[count - 1]))
        }
    }

    fn join(self, next: Weight) -> (joined: Weight)
        ensures
            joined == self.joined_by(next),
    {
        let total: u32 = sum(next.mass, self.mass);
        Weight {
            mass: total,
            x: quotient(sum(product(next.mass, next.x), product(self.mass, self.x)), total),
            z: quotient(sum(product(next.mass, next.z), product(self.mass, self.z)), total),
        }
    }
}

/// The center of mass of the bodies: their mass-weighted mean position in
/// the horizontal plane, at height zero.
pub open spec fn center_of(bodies: Seq<Body>) -> Vector {
    let all = Weight::of_first(bodies, bodies.len());
    Vector { x: all.x, y: 0, z: all.z }
}

/// The center of mass of one or more bodies.
pub fn center_of_mass(bodies: &Vec<Body>) -> (center: Vector)
    requires
        bodies.len() >= 1,
    ensures
        center == center_of(bodies@),
        center.y == 0,
{
    let first: Body = bodies[0];
    let mut all: Weight = Weight { mass: first.mass, x: first.position.x, z: first.position.z };
    let mut i: usize = 1;
    while i < bodies.len()
        invariant
            1 <= i <= bodies.len(),
            all == Weight::of_first(bodies@, i as nat),
        decreases bodies.len() - i,
    {
        let next: Body = bodies[i];
        all = all.join(Weight { mass: next.mass, x: next.position.x, z: next.position.z });
        i = i + 1;
    }
    Vector { x: all.x, y: 0, z: all.z }
}

/// The center of mass of a single body is its own horizontal position, at
/// height zero, whatever its mass.
pub proof fn lemma_center_of_one(body: Body)
    ensures
        center_of(seq![body]) == (Vector { x: body.position.x, y: 0, z: body.position.z }),
{
    assert(seq![body].len() == 1);
    assert(seq![body][0] == body);
}


/// The center of mass of two bodies does not depend on which comes first.
pub proof fn lemma_center_of_two_commutes(first: Body, second: Body)
    ensures
        center_of(seq![first, second]) == center_of(seq![second, first]),
{
    let forward = seq![first, second];
    let backward = seq![second, first];
    assert(forward.len() == 2 && backward.len() == 2);
    assert(forward[0] == first && forward[1] == second);
    assert(backward[0] == second && backward[1] == first);
    reveal_with_fuel(Weight::of_first, 3);
    lemma_sum_commutes(first.mass, second.mass);
    lemma_sum_commutes(
        product_of(first.mass, first.position.x),
        product_of(second.mass, second.position.x),
    );
    lemma_sum_commutes(
        product_of(first.mass, first.position.z),
        product_of(second.mass, second.position.z),
    );
}

} // verus!

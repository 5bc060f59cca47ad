//! Vectors in world space, one single-precision encoding per axis.
//!
//! The operations follow the usual formulas, each sum, product, quotient and
//! root rounded as [`crate::arith`] rounds it, in the order written here.

use vstd::prelude::*;
use crate::arith::{
    difference,
    difference_of,
    product,
    product_of,
    quotient,
    quotient_of,
    root,
    root_of,
    sum,
    sum_of,
};

verus! {

/// The encoding of the number one.
pub const ONE: u32 = 0x3F80_0000;

/// A vector in world space. The second axis is the vertical one.
#[derive(Clone, Copy, PartialEq, Eq, Debug, Structural)]
pub struct Vector {
    pub x: u32,
    pub y: u32,
    pub z: u32,
}

impl Vector {
    /// The sum of two vectors, axis by axis.
    pub open spec fn plus_of(self, other: Vector) -> Vector {
        Vector {
            x: sum_of(self.x, other.x),
            y: sum_of(self.y, other.y),
            z: sum_of(self.z, other.z),
        }
    }

    /// The difference of two vectors, axis by axis.
    pub open spec fn minus_of(self, other: Vector) -> Vector {
        Vector {
            x: difference_of(self.x, other.x),
            y: difference_of(self.y, other.y),
            z: difference_of(self.z, other.z),
        }
    }

    /// The vector with every axis multiplied by `factor`.
    pub open spec fn scaled_by(self, factor: u32) -> Vector {
        Vector {
            x: product_of(self.x, factor),
            y: product_of(self.y, factor),
            z: product_of(self.z, factor),
        }
    }

    /// The dot product: the products of the three axes, added from the first.
    pub open spec fn dot_of(self, other: Vector) -> u32 {
        sum_of(
            sum_of(product_of(self.x, other.x), product_of(self.y, other.y)),
            product_of(self.z, other.z),
        )
    }

    /// The cross product, right-handed: along each axis the product of the
    /// next two axes less the product of the same two the other way round.
    pub open spec fn cross_of(self, other: Vector) -> Vector {
        Vector {
            x: difference_of(product_of(self.y, other.z), product_of(other.y, self.z)),
            y: difference_of(product_of(self.z, other.x), product_of(other.z, self.x)),
            z: difference_of(product_of(self.x, other.y), product_of(other.x, self.y)),
        }
    }

    /// The length: the root of the dot product of the vector with itself.
    pub open spec fn length_of(self) -> u32 {
        root_of(self.dot_of(self))
    }

    /// The vector scaled by one over its length. A vector without length
    /// gives no numbers.
    pub open spec fn normalized_of(self) -> Vector {
        self.scaled_by(quotient_of(ONE, self.length_of()))
    }

    /// The sum of two vectors, axis by axis.
    pub fn plus(self, other: Vector) -> (sum: Vector)
        ensures
            sum == self.plus_of(other),
    {
        Vector { x: sum(self.x, other.x), y: sum(self.y, other.y), z: sum(self.z, other.z) }
    }

    /// The difference of two vectors, axis by axis.
    pub fn minus(self, other: Vector) -> (difference: Vector)
        ensures
            difference == self.minus_of(other),
    {
        Vector {
            x: difference(self.x, other.x),
            y: difference(self.y, other.y),
            z: difference(self.z, other.z),
        }
    }

    /// The vector with every axis multiplied by `factor`.
    pub fn scale(self, factor: u32) -> (scaled: Vector)
        ensures
            scaled == self.scaled_by(factor),
    {
        Vector {
            x: product(self.x, factor),
            y: product(self.y, factor),
            z: product(self.z, factor),
        }
    }

    /// The dot product of two vectors.
    pub fn dot(self, other: Vector) -> (dot: u32)
        ensures
            dot == self.dot_of(other),
    {
        sum(sum(product(self.x, other.x), product(self.y, other.y)), product(self.z, other.z))
    }

    /// The cross product of two vectors.
    pub fn cross(self, other: Vector) -> (cross: Vector)
        ensures
            cross == self.cross_of(other),
    {
        Vector {
            x: difference(product(self.y, other.z), product(other.y, self.z)),
            y: difference(product(self.z, other.x), product(other.z, self.x)),
            z: difference(product(self.x, other.y), product(other.x, self.y)),
        }
    }

    /// The length of the vector.
    pub fn length(self) -> (length: u32)
        ensures
            length == self.length_of(),
    {
        root(self.dot(self))
    }

    /// The vector scaled to length one.
    pub fn normalize(self) -> (unit: Vector)
        ensures
            unit == self.normalized_of(),
    {
        self.scale(quotient(ONE, self.length()))
    }
}

} // verus!

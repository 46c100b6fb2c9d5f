//! Lattice points, located vectors and the classification of a point against
//! a heading.

use core::ops::{Add, Neg, Sub};
use vstd::prelude::*;
use vstd::std_specs::ops::{AddSpec, AddSpecImpl, NegSpec, NegSpecImpl, SubSpec, SubSpecImpl};

use crate::types::{Rotation, FMB, LMR};

verus! {

/// A value that can be added, subtracted and negated like a displacement.
pub trait Vector: Copy + Add<Self, Output = Self> + Sub<Self, Output = Self> + Neg<
    Output = Self,
> {

}

/// A point of the integer lattice, also used as a displacement.
#[derive(Copy, Clone, PartialEq, Eq, Debug, Structural)]
pub struct Point {
    pub x: i32,
    pub y: i32,
}

impl Add for Point {
    type Output = Point;

    /// The sum, coordinate by coordinate.
    fn add(self, rhs: Point) -> (r: Point) {
        Point { x: self.x + rhs.x, y: self.y + rhs.y }
    }
}

impl AddSpecImpl for Point {
    /// Sums are exactly as `add_spec` says.
    open spec fn obeys_add_spec() -> bool {
        true
    }

    /// The sum stays on the lattice.
    open spec fn add_req(self, rhs: Point) -> bool {
        &&& i32::MIN <= self.x + rhs.x <= i32::MAX
        &&& i32::MIN <= self.y + rhs.y <= i32::MAX
    }

    /// The sum, coordinate by coordinate.
    open spec fn add_spec(self, rhs: Point) -> Point {
        Point { x: (self.x + rhs.x) as i32, y: (self.y + rhs.y) as i32 }
    }
}

impl Sub for Point {
    type Output = Point;

    /// The difference, coordinate by coordinate.
    fn sub(self, rhs: Point) -> (r: Point) {
        Point { x: self.x - rhs.x, y: self.y - rhs.y }
    }
}

impl SubSpecImpl for Point {
    /// Differences are exactly as `sub_spec` says.
    open spec fn obeys_sub_spec() -> bool {
        true
    }

    /// The difference stays on the lattice.
    open spec fn sub_req(self, rhs: Point) -> bool {
        &&& i32::MIN <= self.x - rhs.x <= i32::MAX
        &&& i32::MIN <= self.y - rhs.y <= i32::MAX
    }

    /// The difference, coordinate by coordinate.
    open spec fn sub_spec(self, rhs: Point) -> Point {
        Point { x: (self.x - rhs.x) as i32, y: (self.y - rhs.y) as i32 }
    }
}

impl Neg for Point {
    type Output = Point;

    /// The opposite displacement.
    fn neg(self) -> (r: Point) {
        Point { x: -self.x, y: -self.y }
    }
}

impl NegSpecImpl for Point {
    /// Opposites are exactly as `neg_spec` says.
    open spec fn obeys_neg_spec() -> bool {
        true
    }

    /// The opposite stays on the lattice.
    open spec fn neg_req(self) -> bool {
        self.x != i32::MIN && self.y != i32::MIN
    }

    /// The opposite displacement.
    open spec fn neg_spec(self) -> Point {
        Point { x: (-self.x) as i32, y: (-self.y) as i32 }
    }
}

impl Vector for Point {

}

/// A vector `vec` attached at the position `tail`.
#[derive(Copy, Clone, Debug, PartialEq, Eq)]
pub struct FromLoc<T: Vector> {
    pub tail: T,
    pub vec: T,
}

impl<T: Vector> FromLoc<T> {
    /// The located vector that runs from `tail` to `head`.
    pub fn new(tail: T, head: T) -> (r: Self)
        requires
            head.sub_req(tail),
        ensures
            r.tail == tail,
            T::obeys_sub_spec() ==> r.vec == head.sub_spec(tail),
    {
        Self { tail, vec: head.sub(tail) }
    }

    /// The position at which the vector ends.
    pub fn head(&self) -> (r: T)
        requires
            self.tail.add_req(self.vec),
        ensures
            T::obeys_add_spec() ==> r == self.tail.add_spec(self.vec),
    {
        self.tail.add(self.vec)
    }

    /// The same segment walked the other way.
    pub fn rev(self) -> (r: Self)
        requires
            self.tail.add_req(self.vec),
            self.vec.neg_req(),
        ensures
            T::obeys_add_spec() ==> r.tail == self.tail.add_spec(self.vec),
            T::obeys_neg_spec() ==> r.vec == self.vec.neg_spec(),
    {
        Self { tail: self.head(), vec: self.vec.neg() }
    }
}

/// Classification of a point against a heading.
pub trait Direction<T> {
    /// Whether `other` lies left of, on, or right of the heading.
    fn lmr(&self, other: T) -> LMR;

    /// Whether `other` lies ahead of, level with, or behind the heading's head.
    fn fmb(&self, other: T) -> FMB;

    /// The turn that brings the heading towards `other`, if one is needed.
    fn turning_rot(&self, other: T) -> Option<Rotation>;
}

/// Classification of the sign of a cross product: positive is left.
pub open spec fn side_of(cross: int) -> LMR {
    if cross > 0 {
        LMR::Left
    } else if cross == 0 {
        LMR::Middle
    } else {
        LMR::Right
    }
}

/// Classification of the sign of a dot product: positive is in front.
pub open spec fn ahead_of(dot: int) -> FMB {
    if dot > 0 {
        FMB::Front
    } else if dot == 0 {
        FMB::Middle
    } else {
        FMB::Back
    }
}

/// The turn that a side calls for: anticlockwise to the left, clockwise to
/// the right, none straight ahead.
pub open spec fn turn_for(side: LMR) -> Option<Rotation> {
    match side {
        LMR::Left => Some(Rotation::Anticlockwise),
        LMR::Right => Some(Rotation::Clockwise),
        LMR::Middle => None,
    }
}

impl FromLoc<Point> {
    /// First coordinate of the head.
    pub open spec fn head_x(&self) -> int {
        self.tail.x + self.vec.x
    }

    /// Second coordinate of the head.
    pub open spec fn head_y(&self) -> int {
        self.tail.y + self.vec.y
    }

    /// Cross product of the vector with the displacement from the head to
    /// `other`.
    pub open spec fn perp_dot_to(&self, other: Point) -> int {
        self.vec.x * (other.y - self.head_y()) - self.vec.y * (other.x - self.head_x())
    }

    /// Dot product of the vector with the displacement from the head to
    /// `other`.
    pub open spec fn dot_to(&self, other: Point) -> int {
        self.vec.x * (other.x - self.head_x()) + self.vec.y * (other.y - self.head_y())
    }

    /// The side of the heading on which `other` lies.
    pub open spec fn side(&self, other: Point) -> LMR {
        side_of(self.perp_dot_to(other))
    }

    /// The turn towards `other`.
    pub open spec fn turn(&self, other: Point) -> Option<Rotation> {
        turn_for(self.side(other))
    }
}

/// The product of two lattice coordinates' differences, which always fits.
fn wide_product(a: i32, b: i64) -> (r: i128)
    requires
        -0x2_0000_0000 <= b <= 0x2_0000_0000,
    ensures
        r == a * b,
        -0x1_0000_0000_0000_0000 <= r <= 0x1_0000_0000_0000_0000,
{
    assert(-0x1_0000_0000_0000_0000 <= a * b <= 0x1_0000_0000_0000_0000) by (nonlinear_arith)
        requires
            -0x8000_0000 <= a <= 0x8000_0000,
            -0x2_0000_0000 <= b <= 0x2_0000_0000,
    ;
    (a as i128) * (b as i128)
}

impl Direction<Point> for FromLoc<Point> {
    /// Left for a positive cross product, right for a negative one.
    fn lmr(&self, other: Point) -> (r: LMR)
        ensures
            r == self.side(other),
    {
        let hx: i64 = self.tail.x as i64 + self.vec.x as i64;
        let hy: i64 = self.tail.y as i64 + self.vec.y as i64;
        let cross: i128 = wide_product(self.vec.x, other.y as i64 - hy) - wide_product(
            self.vec.y,
            other.x as i64 - hx,
        );
        if cross > 0 {
            LMR::Left
        } else if cross == 0 {
            LMR::Middle
        } else {
            LMR::Right
        }
    }

    /// Front for a positive dot product, back for a negative one.
    fn fmb(&self, other: Point) -> (r: FMB)
        ensures
            r == ahead_of(self.dot_to(other)),
    {
        let hx: i64 = self.tail.x as i64 + self.vec.x as i64;
        let hy: i64 = self.tail.y as i64 + self.vec.y as i64;
        let dot: i128 = wide_product(self.vec.x, other.x as i64 - hx) + wide_product(
            self.vec.y,
            other.y as i64 - hy,
        );
        if dot > 0 {
            FMB::Front
        } else if dot == 0 {
            FMB::Middle
        } else {
            FMB::Back
        }
    }

    /// Anticlockwise towards the left, clockwise towards the right.
    fn turning_rot(&self, other: Point) -> (r: Option<Rotation>)
        ensures
            r == self.turn(other),
    {
        match self.lmr(other) {
            LMR::Left => Some(Rotation::Anticlockwise),
            LMR::Right => Some(Rotation::Clockwise),
            LMR::Middle => None,
        }
    }
}

} // verus!

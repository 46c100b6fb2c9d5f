//! Small vocabulary types shared by the router, the turn planner and the
//! simulator.

use vstd::prelude::*;

verus! {

/// Side of a heading on which a point lies.
#[derive(Copy, Clone, PartialEq, Eq, Debug, Structural)]
pub enum LMR {
    Left,
    Middle,
    Right,
}

/// Position of a point along a heading, relative to the heading's head.
#[derive(Copy, Clone, PartialEq, Eq, Debug, Structural)]
pub enum FMB {
    Front,
    Middle,
    Back,
}

/// Turn sense of an arc.
#[derive(Copy, Clone, PartialEq, Eq, Debug, Structural)]
pub enum Rotation {
    Clockwise,
    Anticlockwise,
}

impl Rotation {
    /// The opposite turn sense.
    pub open spec fn spec_opp(&self) -> Rotation {
        match self {
            Rotation::Clockwise => Rotation::Anticlockwise,
            Rotation::Anticlockwise => Rotation::Clockwise,
        }
    }

    /// The opposite turn sense.
    #[must_use]
    #[verifier::when_used_as_spec(spec_opp)]
    pub fn opp(&self) -> (r: Rotation)
        ensures
            r == self.spec_opp(),
            r != *self,
            r.spec_opp() == *self,
    {
        match self {
            Rotation::Clockwise => Rotation::Anticlockwise,
            Rotation::Anticlockwise => Rotation::Clockwise,
        }
    }
}

/// The common tangent of two turning circles that a path follows from the
/// one to the other.
#[derive(Copy, Clone, PartialEq, Eq, Debug, Structural)]
pub enum Tangent {
    /// Parallel to the line between the centres: the circles are passed on
    /// the same side.
    Outer,
    /// Across the line between the centres: the circles are passed on
    /// opposite sides.
    Inner,
}

impl Rotation {
    /// The sign of angles swept in this sense: one for anticlockwise, minus
    /// one for clockwise.
    pub fn sign(&self) -> (r: i8)
        ensures
            r == match *self {
                Rotation::Anticlockwise => 1i8,
                Rotation::Clockwise => -1i8,
            },
            r == -self.spec_opp().spec_sign(),
    {
        match self {
            Rotation::Anticlockwise => 1,
            Rotation::Clockwise => -1,
        }
    }

    /// The sign of angles swept in this sense.
    pub open spec fn spec_sign(&self) -> int {
        match *self {
            Rotation::Anticlockwise => 1,
            Rotation::Clockwise => -1,
        }
    }
}

/// The tangent to follow from a turn of the sense `start_rot` to one of the
/// sense `end_rot`: the outer one between turns of the same sense; between
/// turns of opposite senses the inner one, which exists only where the
/// circles are `far_enough` apart not to overlap, and else the outer one.
pub fn tangent_between(start_rot: Rotation, end_rot: Rotation, far_enough: bool) -> (r: Tangent)
    ensures
        r == if start_rot != end_rot && far_enough {
            Tangent::Inner
        } else {
            Tangent::Outer
        },
{
    if start_rot == end_rot || !far_enough {
        Tangent::Outer
    } else {
        Tangent::Inner
    }
}

/// Size class of a runway.
#[derive(Copy, Clone, PartialEq, Eq, Debug, Structural)]
pub enum RunwayWidth {
    Large,
    Small,
}

/// Kind of a facility that serves planes.
#[derive(Copy, Clone, PartialEq, Eq, Debug, Structural)]
pub enum PlaneFacilityType {
    Airport,
    Airfield,
}

} // verus!

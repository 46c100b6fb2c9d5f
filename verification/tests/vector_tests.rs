use flightradar::types::{tangent_between, Rotation, Tangent, FMB, LMR};
use flightradar::vector::{Direction, FromLoc, Point};

fn pt(x: i32, y: i32) -> Point {
    Point { x, y }
}

#[test]
fn rotation_opp_swaps() {
    assert_eq!(Rotation::Clockwise.opp(), Rotation::Anticlockwise);
    assert_eq!(Rotation::Anticlockwise.opp(), Rotation::Clockwise);
    assert_eq!(Rotation::Clockwise.opp().opp(), Rotation::Clockwise);
}

#[test]
fn from_loc_new_head_rev() {
    let fl = FromLoc::new(pt(1, 2), pt(4, -2));
    assert_eq!(fl.tail, pt(1, 2));
    assert_eq!(fl.vec, pt(3, -4));
    assert_eq!(fl.head(), pt(4, -2));
    let back = fl.rev();
    assert_eq!(back.tail, pt(4, -2));
    assert_eq!(back.vec, pt(-3, 4));
    assert_eq!(back.head(), pt(1, 2));
}

#[test]
fn lmr_follows_cross_product_sign() {
    let heading = FromLoc { tail: pt(0, 1), vec: pt(0, -1) };
    assert_eq!(heading.lmr(pt(3, 0)), LMR::Left);
    assert_eq!(heading.lmr(pt(-3, 0)), LMR::Right);
    assert_eq!(heading.lmr(pt(0, -7)), LMR::Middle);
    assert_eq!(heading.lmr(pt(0, 7)), LMR::Middle);
}

#[test]
fn fmb_follows_dot_product_sign() {
    let heading = FromLoc { tail: pt(0, 0), vec: pt(2, 0) };
    assert_eq!(heading.fmb(pt(5, 9)), FMB::Front);
    assert_eq!(heading.fmb(pt(2, -4)), FMB::Middle);
    assert_eq!(heading.fmb(pt(1, 0)), FMB::Back);
}

#[test]
fn turning_rot_maps_sides_to_turns() {
    let heading = FromLoc { tail: pt(0, 1), vec: pt(0, -1) };
    assert_eq!(heading.turning_rot(pt(3, 0)), Some(Rotation::Anticlockwise));
    assert_eq!(heading.turning_rot(pt(-3, 0)), Some(Rotation::Clockwise));
    assert_eq!(heading.turning_rot(pt(0, -5)), None);
}

#[test]
fn classification_is_total_at_the_coordinate_limits() {
    let heading = FromLoc { tail: pt(i32::MAX, i32::MIN), vec: pt(i32::MAX, i32::MIN) };
    assert_eq!(heading.lmr(pt(i32::MIN, i32::MIN)), LMR::Right);
    assert_eq!(heading.fmb(pt(i32::MIN, i32::MAX)), FMB::Back);
}

#[test]
fn rotation_sign_is_positive_anticlockwise() {
    assert_eq!(Rotation::Anticlockwise.sign(), 1);
    assert_eq!(Rotation::Clockwise.sign(), -1);
    assert_eq!(Rotation::Clockwise.opp().sign(), 1);
}

#[test]
fn inner_tangent_only_between_opposite_turns_far_enough_apart() {
    assert_eq!(tangent_between(Rotation::Anticlockwise, Rotation::Anticlockwise, true), Tangent::Outer);
    assert_eq!(tangent_between(Rotation::Clockwise, Rotation::Clockwise, false), Tangent::Outer);
    assert_eq!(tangent_between(Rotation::Anticlockwise, Rotation::Clockwise, true), Tangent::Inner);
    assert_eq!(tangent_between(Rotation::Clockwise, Rotation::Anticlockwise, true), Tangent::Inner);
    assert_eq!(tangent_between(Rotation::Anticlockwise, Rotation::Clockwise, false), Tangent::Outer);
    assert_eq!(tangent_between(Rotation::Clockwise, Rotation::Anticlockwise, false), Tangent::Outer);
}

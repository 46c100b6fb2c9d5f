use flightradar::flight_path::{assemble, fix_curve_directions, fly_legs, get_flight_path, Path, Sweep, TurnGeometry};
use flightradar::flight_route::{plan_flight, PlanError};
use flightradar::network::{Airway, Network, RouteError, Waypoint};
use flightradar::turns::{flight_legs, Leg};
use flightradar::types::Rotation::{self, Anticlockwise, Clockwise};
use flightradar::vector::{FromLoc, Point};

fn pt(x: i32, y: i32) -> Point {
    Point { x, y }
}

fn fl(tx: i32, ty: i32, vx: i32, vy: i32) -> FromLoc<Point> {
    FromLoc { tail: pt(tx, ty), vec: pt(vx, vy) }
}

fn code(rot: Rotation) -> i64 {
    match rot {
        Anticlockwise => 1,
        Clockwise => -1,
    }
}

/// A geometry of the lattice that turns on the spot: every arc is centred
/// on the point where its heading ends, and tangents run straight to the
/// next centre. Angles only record the turn senses that were asked for.
struct OnTheSpot {
    /// A waypoint at which every construction breaks down.
    broken: Option<Point>,
}

impl TurnGeometry<Point, i64> for OnTheSpot {
    type Degenerate = String;

    fn path_between(
        &self,
        start_vec: FromLoc<Point>,
        start_rot: Rotation,
        end_centre: Point,
        end_rot: Rotation,
    ) -> Result<(Sweep<Point, i64>, FromLoc<Point>), String> {
        if self.broken == Some(end_centre) {
            return Err(format!("no way to {:?}", end_centre));
        }
        let head = start_vec.head();
        Ok((
            Sweep { centre: head, from: head, angle: 10 * code(start_rot) + code(end_rot) },
            FromLoc::new(head, end_centre),
        ))
    }

    fn final_turn(
        &self,
        heading: FromLoc<Point>,
        rot: Rotation,
        end: FromLoc<Point>,
    ) -> Result<(Sweep<Point, i64>, FromLoc<Point>, Sweep<Point, i64>), String> {
        if self.broken == Some(end.tail) {
            return Err("no way in".to_string());
        }
        let head = heading.head();
        Ok((
            Sweep { centre: head, from: head, angle: 100 * code(rot) },
            FromLoc::new(head, end.tail),
            Sweep { centre: end.tail, from: end.tail, angle: -100 * code(rot) },
        ))
    }

    fn straight_to(&self, heading: FromLoc<Point>, target: Point) -> FromLoc<Point> {
        FromLoc::new(heading.head(), target)
    }

    fn wind(&self, angle: i64, rot: Rotation) -> i64 {
        let mut angle = angle;
        while angle * code(rot) < 0 {
            angle += 1000 * code(rot);
        }
        angle
    }
}

const WHOLE: OnTheSpot = OnTheSpot { broken: None };

#[test]
fn collinear_approach_vectors_are_joined_by_one_straight() {
    let start = fl(0, 0, 1, 0);
    let end = fl(3, 0, 1, 0);
    let legs = flight_legs(start, end, &vec![]);
    assert_eq!(legs, vec![]);
    let path = get_flight_path(&WHOLE, start, end, &legs).unwrap();
    assert_eq!(path, vec![Path::Straight(fl(1, 0, 2, 0))]);
}

#[test]
fn head_to_tail_approach_vectors_are_joined_by_an_empty_straight() {
    let start = fl(0, 0, 10, 0);
    let end = fl(10, 0, 10, 0);
    let path = get_flight_path(&WHOLE, start, end, &vec![]).unwrap();
    assert_eq!(path, vec![Path::Straight(fl(10, 0, 0, 0))]);
}

#[test]
fn a_waypoint_straight_ahead_leaves_one_straight() {
    let start = fl(0, 0, 1, 0);
    let end = fl(5, 0, 1, 0);
    let legs = flight_legs(start, end, &vec![pt(2, 0)]);
    assert_eq!(legs, vec![]);
    let path = get_flight_path(&WHOLE, start, end, &legs).unwrap();
    assert_eq!(path, vec![Path::Straight(fl(1, 0, 4, 0))]);
}

#[test]
fn legs_are_flown_each_from_the_tangent_before() {
    let start = fl(0, 0, 10, 0);
    let legs = vec![
        Leg { start_rot: Anticlockwise, end_centre: pt(10, 10), end_rot: Clockwise },
        Leg { start_rot: Clockwise, end_centre: pt(20, 10), end_rot: Clockwise },
    ];
    let (segments, heading) = fly_legs(&WHOLE, start, &legs).unwrap();
    assert_eq!(
        segments,
        vec![
            Path::Curve { centre: pt(10, 0), from: pt(10, 0), angle: 9 },
            Path::Straight(fl(10, 0, 0, 10)),
            Path::Curve { centre: pt(10, 10), from: pt(10, 10), angle: -11 },
            Path::Straight(fl(10, 10, 10, 0)),
        ]
    );
    assert_eq!(heading, fl(10, 10, 10, 0));
    let (none, same) = fly_legs(&WHOLE, start, &vec![]).unwrap();
    assert_eq!(none, vec![]);
    assert_eq!(same, start);
}

#[test]
fn the_first_breakdown_ends_the_flight() {
    let start = fl(0, 0, 10, 0);
    let legs = vec![
        Leg { start_rot: Anticlockwise, end_centre: pt(10, 10), end_rot: Clockwise },
        Leg { start_rot: Clockwise, end_centre: pt(20, 10), end_rot: Clockwise },
    ];
    let broken = OnTheSpot { broken: Some(pt(20, 10)) };
    assert_eq!(fly_legs(&broken, start, &legs).err(), Some("no way to Point { x: 20, y: 10 }".to_string()));
    let end = fl(20, 20, 0, 10);
    assert_eq!(get_flight_path(&broken, start, end, &legs).err(), Some("no way to Point { x: 20, y: 10 }".to_string()));
    let no_way_in = OnTheSpot { broken: Some(pt(20, 20)) };
    assert_eq!(assemble(&no_way_in, start, end, &legs).err(), Some("no way in".to_string()));
}

#[test]
fn a_final_turn_leads_into_the_end() {
    let start = fl(0, 0, 10, 0);
    let end = fl(10, 20, 10, 0);
    // the tail of the end lies to the left of the start heading
    let raw = assemble(&WHOLE, start, end, &vec![]).unwrap();
    assert_eq!(
        raw,
        vec![
            Path::Curve { centre: pt(10, 0), from: pt(10, 0), angle: 100 },
            Path::Straight(fl(10, 0, 0, 20)),
            Path::Curve { centre: pt(10, 20), from: pt(10, 20), angle: -100 },
        ]
    );
    // both arcs lie straight ahead of the straights before them: the signs stay
    let path = get_flight_path(&WHOLE, start, end, &vec![]).unwrap();
    assert_eq!(path, raw);
}

#[test]
fn arcs_between_straights_are_wound_to_the_turn_between_them() {
    let a = fl(0, 0, 10, 0);
    let left = fl(10, 10, 0, 10);
    let right = fl(10, -10, 0, -10);
    let ahead = fl(20, 0, 10, 0);
    let arc = |angle: i64| Path::Curve { centre: pt(10, 0), from: pt(10, 0), angle };
    let mut route = vec![
        Path::Straight(a),
        arc(-5),
        Path::Straight(left),
        arc(-5),
        arc(-5),
        Path::Straight(a),
        arc(5),
        Path::Straight(right),
        Path::Straight(a),
        arc(-7),
        Path::Straight(ahead),
    ];
    fix_curve_directions(&WHOLE, a, ahead, &mut route);
    assert_eq!(
        route,
        vec![
            Path::Straight(a),
            arc(995),
            Path::Straight(left),
            arc(-5),
            arc(-5),
            Path::Straight(a),
            arc(-995),
            Path::Straight(right),
            Path::Straight(a),
            arc(-7),
            Path::Straight(ahead),
        ]
    );
    let mut empty: Vec<Path<Point, i64>> = vec![];
    fix_curve_directions(&WHOLE, a, ahead, &mut empty);
    assert!(empty.is_empty());
}

#[test]
fn the_first_and_last_arc_are_wound_against_the_approach_vectors() {
    let a = fl(0, 0, 10, 0);
    let left = fl(10, 10, 0, 10);
    let right = fl(10, -10, 0, -10);
    let arc = |angle: i64| Path::Curve { centre: pt(10, 0), from: pt(10, 0), angle };
    // the path starts with an arc: it is wound to the turn from the start to the straight after it
    let mut route = vec![arc(-5), Path::Straight(left)];
    fix_curve_directions(&WHOLE, a, a, &mut route);
    assert_eq!(route, vec![arc(995), Path::Straight(left)]);
    // the path ends with an arc: it is wound to the turn from the straight before it to the end
    let mut route = vec![Path::Straight(a), arc(5)];
    fix_curve_directions(&WHOLE, left, right, &mut route);
    assert_eq!(route, vec![Path::Straight(a), arc(-995)]);
    // a lone arc between the two approach vectors
    let mut route = vec![arc(-5)];
    fix_curve_directions(&WHOLE, a, left, &mut route);
    assert_eq!(route, vec![arc(995)]);
}

#[test]
fn a_planned_route_is_assembled_in_order() {
    let start = fl(0, -10, 0, 10);
    let end = fl(40, 20, 0, 5);
    let waypoints = vec![pt(0, 10), pt(0, 20), pt(10, 20), pt(20, 20), pt(20, 10), pt(20, 0), pt(40, 0)];
    let legs = flight_legs(start, end, &waypoints);
    assert_eq!(legs.len(), 3);
    let path = get_flight_path(&WHOLE, start, end, &legs).unwrap();
    assert_eq!(path.len(), 2 * legs.len() + 3);
    for k in 0..legs.len() {
        assert!(matches!(path[2 * k], Path::Curve { .. }));
        match path[2 * k + 1] {
            Path::Straight(tangent) => assert_eq!(tangent.head(), legs[k].end_centre),
            other => panic!("expected a straight, found {:?}", other),
        }
    }
    assert!(matches!(path[path.len() - 3], Path::Curve { .. }));
    assert!(matches!(path[path.len() - 2], Path::Straight(_)));
    assert!(matches!(path[path.len() - 1], Path::Curve { .. }));
}

fn begin(p: &Path<Point, i64>) -> Point {
    match p {
        Path::Straight(run) => run.tail,
        Path::Curve { from, .. } => *from,
    }
}

/// Where a segment of the geometry that turns on the spot ends.
fn finish(p: &Path<Point, i64>) -> Point {
    match p {
        Path::Straight(run) => run.head(),
        Path::Curve { from, .. } => *from,
    }
}

#[test]
fn with_a_geometry_that_joins_up_the_path_is_unbroken() {
    let cases = [
        (fl(0, -10, 0, 10), fl(40, 20, 0, 5), vec![pt(0, 10), pt(0, 20), pt(10, 20), pt(20, 20), pt(20, 10), pt(40, 0)]),
        (fl(0, 0, 10, 0), fl(30, 0, 10, 0), vec![]),
        (fl(0, 0, 10, 0), fl(10, 20, 10, 0), vec![]),
        (fl(0, 1, 0, -1), fl(3, -5, 0, -1), vec![pt(3, 0)]),
        (fl(5, 5, -3, 2), fl(-40, 7, 1, 1), vec![pt(9, -9), pt(-20, 30), pt(-21, 31), pt(0, 0)]),
    ];
    for (start, end, waypoints) in cases {
        let legs = flight_legs(start, end, &waypoints);
        let path = get_flight_path(&WHOLE, start, end, &legs).unwrap();
        assert_eq!(begin(&path[0]), start.head());
        for pair in path.windows(2) {
            assert_eq!(finish(&pair[0]), begin(&pair[1]), "{:?}", path);
        }
        assert_eq!(finish(&path[path.len() - 1]), end.tail);
        // every arc has the one radius of this geometry: none
        for segment in &path {
            if let Path::Curve { centre, from, .. } = segment {
                assert_eq!(centre, from);
            }
        }
    }
}

fn small_network() -> Network {
    let wp = |name: &str, x: i32, y: i32| Waypoint { name: name.to_string(), coords: pt(x, y) };
    let aw = |a: &str, b: &str| Airway { waypoint1: a.to_string(), waypoint2: b.to_string() };
    Network::build(
        vec![wp("A", 0, 0), wp("B", 1000, 0), wp("C", 1000, 1000), wp("D", 5000, 5000)],
        &vec![aw("A", "B"), aw("B", "C")],
    )
    .unwrap()
}

#[test]
fn a_planned_flight_carries_the_path_over_the_legs_of_its_route() {
    let net = small_network();
    let start = fl(-600, 0, 500, 0);
    let end = fl(1000, 1100, 0, 500);
    for _ in 0..10 {
        let (route, path) = plan_flight(&net, &WHOLE, start, end, start, end).unwrap();
        assert_eq!(route.waypoints, vec![0, 1, 2]);
        assert_eq!(route.legs, flight_legs(start, end, &route.positions));
        assert_eq!(path, get_flight_path(&WHOLE, start, end, &route.legs).unwrap());
        assert_eq!(begin(&path[0]), start.head());
        assert_eq!(finish(&path[path.len() - 1]), end.tail);
    }
}

#[test]
fn a_flight_cannot_be_planned_without_a_route_or_with_a_broken_geometry() {
    let net = small_network();
    let start = fl(-600, 0, 500, 0);
    let far = fl(5000, 5000, 0, 500);
    assert_eq!(
        plan_flight(&net, &WHOLE, start, far, start, far).err(),
        Some(PlanError::Route(RouteError::RouteNotFound))
    );
    let empty = Network::build(vec![], &vec![]).unwrap();
    assert_eq!(
        plan_flight(&empty, &WHOLE, start, far, start, far).err(),
        Some(PlanError::Route(RouteError::ReferenceDataError))
    );
    let end = fl(1000, 1100, 0, 500);
    let broken = OnTheSpot { broken: Some(end.tail) };
    assert_eq!(
        plan_flight(&net, &broken, start, end, start, end).err(),
        Some(PlanError::Geometry("no way in".to_string()))
    );
}

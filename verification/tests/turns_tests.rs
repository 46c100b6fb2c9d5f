use flightradar::flight_route::{get_flight_route, jitter, offset_by, JITTER, MAX_TURN_RADIUS, STANDOFF};
use flightradar::network::{Airway, Network, RouteError, Waypoint};
use flightradar::turns::{flight_legs, turn_senses, Leg};
use flightradar::types::Rotation::{Anticlockwise, Clockwise};
use flightradar::vector::{Direction, FromLoc, Point};

fn pt(x: i32, y: i32) -> Point {
    Point { x, y }
}

fn fl(tx: i32, ty: i32, vx: i32, vy: i32) -> FromLoc<Point> {
    FromLoc { tail: pt(tx, ty), vec: pt(vx, vy) }
}

#[test]
fn collinear_approach_vectors_need_no_turn() {
    let start = fl(0, 0, 10, 0);
    let end = fl(10, 0, 10, 0);
    assert_eq!(turn_senses(start, end, &vec![]), vec![None]);
    assert_eq!(flight_legs(start, end, &vec![]), vec![]);
    // the straight run from the head of the start to the tail of the end
    assert_eq!(start.turning_rot(end.tail), None);
    assert_eq!(FromLoc::new(start.head(), end.tail).vec, pt(0, 0));
    let further = fl(25, 0, 10, 0);
    assert_eq!(flight_legs(start, further, &vec![]), vec![]);
    assert_eq!(FromLoc::new(start.head(), further.tail), fl(10, 0, 15, 0));
}

#[test]
fn a_waypoint_straight_ahead_is_flown_through() {
    let start = fl(0, 0, 10, 0);
    let end = fl(30, 30, 0, 10);
    let waypoints = vec![pt(20, 0), pt(30, 10)];
    assert_eq!(turn_senses(start, end, &waypoints), vec![None, Some(Anticlockwise), Some(Anticlockwise)]);
    assert_eq!(
        flight_legs(start, end, &waypoints),
        vec![Leg { start_rot: Anticlockwise, end_centre: pt(30, 10), end_rot: Anticlockwise }]
    );
}

#[test]
fn turns_of_opposite_sense_follow_each_other() {
    let start = fl(0, 1, 0, -1);
    let end = fl(3, -5, 0, -1);
    let waypoints = vec![pt(3, 0)];
    assert_eq!(turn_senses(start, end, &waypoints), vec![Some(Anticlockwise), Some(Clockwise)]);
    assert_eq!(
        flight_legs(start, end, &waypoints),
        vec![Leg { start_rot: Anticlockwise, end_centre: pt(3, 0), end_rot: Clockwise }]
    );
}

#[test]
fn dropped_waypoints_do_not_break_the_chain() {
    // zig-zag with a collinear waypoint in the middle of each stretch
    let start = fl(0, -10, 0, 10);
    let end = fl(40, 20, 0, 5);
    let waypoints = vec![pt(0, 10), pt(0, 20), pt(10, 20), pt(20, 20), pt(20, 10), pt(20, 0), pt(40, 0)];
    let senses = turn_senses(start, end, &waypoints);
    assert_eq!(
        senses,
        vec![
            None,
            None,
            Some(Clockwise),
            None,
            Some(Clockwise),
            None,
            Some(Anticlockwise),
            Some(Anticlockwise),
        ]
    );
    let legs = flight_legs(start, end, &waypoints);
    assert_eq!(
        legs,
        vec![
            Leg { start_rot: Clockwise, end_centre: pt(20, 20), end_rot: Clockwise },
            Leg { start_rot: Clockwise, end_centre: pt(20, 0), end_rot: Anticlockwise },
            Leg { start_rot: Anticlockwise, end_centre: pt(40, 0), end_rot: Anticlockwise },
        ]
    );
    for pair in legs.windows(2) {
        assert_eq!(pair[0].end_rot, pair[1].start_rot);
    }
}

#[test]
fn a_single_turn_gives_no_leg() {
    let start = fl(0, 0, 10, 0);
    let end = fl(20, 10, 0, 10);
    let waypoints = vec![pt(20, 0)];
    assert_eq!(turn_senses(start, end, &waypoints), vec![None, Some(Anticlockwise)]);
    assert_eq!(flight_legs(start, end, &waypoints), vec![]);
}

#[test]
fn turn_senses_are_exact_at_the_coordinate_limits() {
    let start = fl(i32::MAX, i32::MAX, i32::MAX, i32::MAX);
    let end = fl(i32::MIN, i32::MIN, i32::MIN, i32::MIN);
    let waypoints = vec![pt(i32::MIN, i32::MAX), pt(i32::MAX, i32::MIN)];
    assert_eq!(
        turn_senses(start, end, &waypoints),
        vec![Some(Anticlockwise), Some(Anticlockwise), Some(Clockwise)]
    );
}

#[test]
fn jitter_moves_each_position_by_at_most_the_limit() {
    let before = vec![pt(0, 0), pt(-100, 100), pt(i32::MAX, i32::MAX - 10), pt(i32::MIN, 7)];
    let mut moved = false;
    for _ in 0..20 {
        let mut after = before.clone();
        jitter(&mut after);
        assert_eq!(after.len(), before.len());
        for (p, q) in before.iter().zip(after.iter()) {
            assert!(p.x <= q.x && q.x as i64 <= p.x as i64 + JITTER as i64);
            assert!(p.y <= q.y && q.y as i64 <= p.y as i64 + JITTER as i64);
        }
        moved = moved || after != before;
    }
    assert!(moved);
}

fn small_network() -> Network {
    let wp = |name: &str, x: i32, y: i32| Waypoint { name: name.to_string(), coords: pt(x, y) };
    let aw = |a: &str, b: &str| Airway { waypoint1: a.to_string(), waypoint2: b.to_string() };
    Network::build(
        vec![wp("A", 0, 0), wp("B", 1000, 0), wp("C", 1000, 1000), wp("D", 5000, 5000)],
        &vec![aw("A", "B"), aw("B", "C")],
    )
    .unwrap()
}

#[test]
fn flight_route_passes_the_shortest_route_within_the_jitter() {
    let net = small_network();
    let start = fl(-600, 0, 500, 0);
    let end = fl(1000, 1100, 0, 500);
    for _ in 0..10 {
        let route = get_flight_route(&net, start, end).unwrap();
        assert_eq!(route.waypoints, vec![0, 1, 2]);
        assert_eq!(route.positions.len(), 3);
        for (i, q) in route.positions.iter().enumerate() {
            let p = net.waypoints[route.waypoints[i]].coords;
            assert!(p.x <= q.x && q.x <= p.x + JITTER);
            assert!(p.y <= q.y && q.y <= p.y + JITTER);
        }
        assert_eq!(route.legs, flight_legs(start, end, &route.positions));
    }
}

#[test]
fn flight_route_reports_why_there_is_none() {
    let net = small_network();
    let start = fl(-600, 0, 500, 0);
    let far = fl(5000, 5000, 0, 500);
    assert_eq!(get_flight_route(&net, start, far).err(), Some(RouteError::RouteNotFound));
    let empty = Network::build(vec![], &vec![]).unwrap();
    assert_eq!(get_flight_route(&empty, start, far).err(), Some(RouteError::ReferenceDataError));
}

#[test]
fn offsets_are_held_back_at_both_edges_of_the_lattice() {
    assert_eq!(offset_by(pt(1, 2), 3, 4), pt(4, 6));
    assert_eq!(offset_by(pt(1, 2), -3, -4), pt(-2, -2));
    assert_eq!(offset_by(pt(i32::MAX - 1, i32::MIN + 1), 5, -5), pt(i32::MAX, i32::MIN));
    assert_eq!(offset_by(pt(i32::MAX, i32::MIN), i32::MAX, i32::MIN), pt(i32::MAX, i32::MIN));
    assert_eq!(offset_by(pt(i32::MAX, i32::MIN), i32::MIN, i32::MAX), pt(-1, -1));
}

#[test]
fn approach_and_turn_constants() {
    assert_eq!(STANDOFF, 500);
    assert_eq!(MAX_TURN_RADIUS, 100);
    assert_eq!(JITTER, 50);
}

use flightradar::distance::{distance_down, distance_up, isqrt, length_sq};
use flightradar::network::{find_waypoint, Airway, Network, RouteError, Waypoint};
use flightradar::router::{a_star, get_waypoint_route};
use flightradar::vector::{FromLoc, Point};

fn wp(name: &str, x: i32, y: i32) -> Waypoint {
    Waypoint { name: name.to_string(), coords: Point { x, y } }
}

fn aw(a: &str, b: &str) -> Airway {
    Airway { waypoint1: a.to_string(), waypoint2: b.to_string() }
}

fn network(waypoints: Vec<Waypoint>, airways: Vec<Airway>) -> Network {
    Network::build(waypoints, &airways).unwrap()
}

/// Every simple route from `at` to `goal`, by exhaustive search.
fn all_routes(net: &Network, at: usize, goal: usize, seen: &mut Vec<usize>, out: &mut Vec<Vec<usize>>) {
    seen.push(at);
    if at == goal {
        out.push(seen.clone());
    } else {
        for &(a, b) in &net.links {
            let next = if a == at {
                b
            } else if b == at {
                a
            } else {
                continue;
            };
            if !seen.contains(&next) {
                all_routes(net, next, goal, seen, out);
            }
        }
    }
    seen.pop();
}

fn shortest_by_search(net: &Network, from: usize, to: usize) -> Option<u128> {
    let mut out = Vec::new();
    all_routes(net, from, to, &mut Vec::new(), &mut out);
    out.iter().map(|r| net.route_length(r)).min()
}

fn grid() -> Network {
    network(
        vec![
            wp("A", 0, 0),
            wp("B", 10, 0),
            wp("C", 20, 0),
            wp("D", 0, 10),
            wp("E", 10, 10),
            wp("F", 20, 10),
            wp("G", 5, 40),
            wp("H", 100, 100),
        ],
        vec![
            aw("A", "B"),
            aw("B", "C"),
            aw("A", "D"),
            aw("D", "E"),
            aw("E", "F"),
            aw("C", "F"),
            aw("B", "E"),
            aw("A", "G"),
            aw("G", "F"),
            aw("A", "F"),
        ],
    )
}

#[test]
fn integer_square_roots() {
    assert_eq!(isqrt(0), 0);
    assert_eq!(isqrt(1), 1);
    assert_eq!(isqrt(15), 3);
    assert_eq!(isqrt(16), 4);
    assert_eq!(isqrt(17), 4);
    assert_eq!(isqrt(u128::MAX), u64::MAX);
    assert_eq!(isqrt((1u128 << 64) - 1), (1u64 << 32) - 1);
    assert_eq!(isqrt(1u128 << 64), 1u64 << 32);
}

#[test]
fn distances_round_down_and_up() {
    let o = Point { x: 0, y: 0 };
    assert_eq!(distance_down(o, Point { x: 3, y: 4 }), 5_000);
    assert_eq!(distance_up(o, Point { x: 3, y: 4 }), 5_000);
    assert_eq!(distance_down(o, Point { x: 1, y: 1 }), 1_414);
    assert_eq!(distance_up(o, Point { x: 1, y: 1 }), 1_415);
    assert_eq!(length_sq(-3, 4), 25);
    assert_eq!(distance_down(o, o), 0);
    assert_eq!(distance_up(o, o), 0);
    assert_eq!(length_sq(-10, -10), 200);
    assert_eq!(length_sq(i64::MIN, i64::MIN), 1u128 << 127);
    assert_eq!(length_sq(i64::MAX, 0), (i64::MAX as u128) * (i64::MAX as u128));
}

#[test]
fn distances_at_the_coordinate_limits() {
    let low = Point { x: i32::MIN, y: i32::MIN };
    let high = Point { x: i32::MAX, y: i32::MAX };
    // the diagonal of the whole lattice: (2^32 - 1) * sqrt(2), in thousandths
    assert_eq!(distance_down(low, high), 6074000998537);
    assert_eq!(distance_up(low, high), 6074000998538);
    assert_eq!(distance_up(high, low), 6074000998538);
    assert_eq!(length_sq((1i64 << 32) - 1, (1i64 << 32) - 1), 2 * ((1u128 << 32) - 1) * ((1u128 << 32) - 1));
}

#[test]
fn airways_are_equal_in_either_order() {
    assert_eq!(aw("A", "B"), aw("B", "A"));
    assert_eq!(aw("A", "B"), aw("A", "B"));
    assert_ne!(aw("A", "B"), aw("A", "C"));
    assert_ne!(aw("A", "B"), aw("C", "B"));
}

#[test]
fn find_waypoint_returns_the_first_match() {
    let wps = vec![wp("A", 0, 0), wp("B", 1, 1), wp("A", 2, 2)];
    assert_eq!(find_waypoint(&wps, &"A".to_string()), Some(0));
    assert_eq!(find_waypoint(&wps, &"B".to_string()), Some(1));
    assert_eq!(find_waypoint(&wps, &"Z".to_string()), None);
}

#[test]
fn build_resolves_names_to_positions() {
    let net = network(vec![wp("A", 0, 0), wp("B", 3, 4), wp("C", 9, 9)], vec![aw("C", "A"), aw("B", "C")]);
    assert_eq!(net.links, vec![(2, 0), (1, 2)]);
    assert_eq!(net.waypoints.len(), 3);
}

#[test]
fn build_rejects_an_unknown_name() {
    let r = Network::build(vec![wp("A", 0, 0)], &vec![aw("A", "B")]);
    assert_eq!(r.err(), Some(RouteError::ReferenceDataError));
}

#[test]
fn two_waypoints_joined_by_one_airway() {
    let net = network(vec![wp("A", 0, 0), wp("B", 3, 4)], vec![aw("A", "B")]);
    let route = a_star(&net, 0, 1).unwrap();
    assert_eq!(route, vec![0, 1]);
    assert_eq!(net.route_length(&route), 5_000);
    assert_eq!(net.route_length(&route), distance_up(net.waypoints[0].coords, net.waypoints[1].coords) as u128);
    assert_eq!(a_star(&net, 1, 0), Some(vec![1, 0]));
}

#[test]
fn route_to_itself_is_the_waypoint_alone() {
    let net = grid();
    assert_eq!(a_star(&net, 3, 3), Some(vec![3]));
    assert_eq!(net.route_length(&vec![3]), 0);
    assert_eq!(net.route_length(&vec![]), 0);
}

#[test]
fn unreachable_goal_gives_no_route() {
    let net = grid();
    assert_eq!(a_star(&net, 0, 7), None);
    assert_eq!(a_star(&net, 7, 0), None);
}

#[test]
fn shortest_route_takes_the_direct_airway() {
    let net = grid();
    // A-F directly is 22.361 units; every detour is longer.
    let route = a_star(&net, 0, 5).unwrap();
    assert_eq!(route, vec![0, 5]);
    assert_eq!(net.route_length(&route), 22_361);
}

#[test]
fn routes_are_connected_and_as_short_as_an_exhaustive_search_finds() {
    let net = grid();
    let n = net.waypoints.len();
    for from in 0..n {
        for to in 0..n {
            let found = a_star(&net, from, to);
            let best = shortest_by_search(&net, from, to);
            match found {
                None => assert_eq!(best, None),
                Some(route) => {
                    assert_eq!(route[0], from);
                    assert_eq!(route[route.len() - 1], to);
                    for pair in route.windows(2) {
                        assert!(net
                            .links
                            .iter()
                            .any(|&(a, b)| (a, b) == (pair[0], pair[1]) || (b, a) == (pair[0], pair[1])));
                    }
                    assert_eq!(Some(net.route_length(&route)), best);
                }
            }
        }
    }
}

#[test]
fn misleading_estimate_does_not_cost_optimality() {
    // Towards the goal lies a dead end; the way round starts by going away.
    let net = network(
        vec![wp("S", 0, 0), wp("Near", 9, 0), wp("Goal", 10, 0), wp("Back", -5, 0), wp("Round", -5, 20), wp("Over", 10, 20)],
        vec![aw("S", "Near"), aw("S", "Back"), aw("Back", "Round"), aw("Round", "Over"), aw("Over", "Goal")],
    );
    let route = a_star(&net, 0, 2).unwrap();
    assert_eq!(route, vec![0, 3, 4, 5, 2]);
    assert_eq!(net.route_length(&route), 5_000 + 20_000 + 15_000 + 20_000);
}

#[test]
fn coincident_waypoints_have_hops_of_length_zero() {
    let net = network(
        vec![wp("A", 1, 1), wp("B", 1, 1), wp("C", 1, 1), wp("D", 4, 5)],
        vec![aw("A", "B"), aw("B", "C"), aw("C", "A"), aw("C", "D"), aw("A", "A")],
    );
    let route = a_star(&net, 0, 3).unwrap();
    assert_eq!(net.route_length(&route), 5_000);
    assert_eq!(route[0], 0);
    assert_eq!(route[route.len() - 1], 3);
    // walking round between the coincident waypoints would cost nothing, but no waypoint is passed twice
    let mut seen = route.clone();
    seen.sort();
    seen.dedup();
    assert_eq!(seen.len(), route.len());
    assert_eq!(a_star(&net, 1, 1), Some(vec![1]));
}

#[test]
fn waypoint_route_joins_the_nearest_waypoints() {
    let net = grid();
    // head of start is (1, 1): nearest is A; tail of end is (19, 11): nearest is F
    let start = FromLoc { tail: Point { x: 1, y: -4 }, vec: Point { x: 0, y: 5 } };
    let end = FromLoc { tail: Point { x: 19, y: 11 }, vec: Point { x: 50, y: 50 } };
    let (route, positions) = get_waypoint_route(&net, start, end).unwrap();
    assert_eq!(route, vec![0, 5]);
    assert_eq!(positions, vec![Point { x: 0, y: 0 }, Point { x: 20, y: 10 }]);
}

#[test]
fn nearest_waypoint_ties_go_to_the_first_listed() {
    // (5, 0) is 5 away from A, from B and from C: the first listed is taken
    let net = network(vec![wp("A", 0, 0), wp("B", 10, 0), wp("C", 8, 4)], vec![aw("A", "B"), aw("B", "C")]);
    let here = FromLoc { tail: Point { x: 5, y: 0 }, vec: Point { x: 0, y: 0 } };
    let there = FromLoc { tail: Point { x: 8, y: 3 }, vec: Point { x: 1, y: 1 } };
    let (route, _) = get_waypoint_route(&net, here, there).unwrap();
    assert_eq!(route, vec![0, 1, 2]);
}

#[test]
fn waypoint_route_without_waypoints_is_a_reference_data_error() {
    let net = network(vec![], vec![]);
    let v = FromLoc { tail: Point { x: 0, y: 0 }, vec: Point { x: 1, y: 0 } };
    assert_eq!(get_waypoint_route(&net, v, v).err(), Some(RouteError::ReferenceDataError));
}

#[test]
fn waypoint_route_between_separate_parts_is_not_found() {
    let net = grid();
    let start = FromLoc { tail: Point { x: 0, y: 0 }, vec: Point { x: 0, y: 0 } };
    let end = FromLoc { tail: Point { x: 99, y: 99 }, vec: Point { x: 1, y: 1 } };
    assert_eq!(get_waypoint_route(&net, start, end).err(), Some(RouteError::RouteNotFound));
}

#[test]
fn waypoint_route_accepts_a_head_beyond_the_coordinate_range() {
    let net = grid();
    let start = FromLoc { tail: Point { x: i32::MAX, y: i32::MAX }, vec: Point { x: i32::MAX, y: i32::MAX } };
    let end = FromLoc { tail: Point { x: i32::MIN, y: i32::MIN }, vec: Point { x: -1, y: -1 } };
    // H is nearest to the far corner, A to the opposite one; they are not joined.
    assert_eq!(get_waypoint_route(&net, start, end).err(), Some(RouteError::RouteNotFound));
    let (route, _) = get_waypoint_route(&net, end, end).unwrap();
    assert_eq!(route, vec![0]);
}

#[test]
fn the_nearest_waypoint_is_judged_by_the_exact_distance() {
    // from (0, 0), (1, 0) is nearer than (1, 1), though both are one whole unit away
    let net = network(vec![wp("Far", 1, 1), wp("Near", 1, 0)], vec![aw("Far", "Near")]);
    let here = FromLoc { tail: Point { x: 0, y: 0 }, vec: Point { x: 0, y: 0 } };
    let (route, positions) = get_waypoint_route(&net, here, here).unwrap();
    assert_eq!(route, vec![1]);
    assert_eq!(positions, vec![Point { x: 1, y: 0 }]);
    let there = FromLoc { tail: Point { x: 2, y: 2 }, vec: Point { x: 5, y: 5 } };
    let (route, _) = get_waypoint_route(&net, here, there).unwrap();
    assert_eq!(route, vec![1, 0]);
}

#[test]
fn many_short_hops_are_not_counted_longer_than_a_detour() {
    // four diagonal hops (5.657 in all) against the way over (3, 4) (6 in all)
    let net = network(
        vec![wp("O", 0, 0), wp("A", 1, 1), wp("B", 2, 2), wp("C", 3, 3), wp("D", 4, 4), wp("E", 3, 4)],
        vec![aw("O", "A"), aw("A", "B"), aw("B", "C"), aw("C", "D"), aw("O", "E"), aw("E", "D")],
    );
    let route = a_star(&net, 0, 4).unwrap();
    assert_eq!(route, vec![0, 1, 2, 3, 4]);
    assert_eq!(net.route_length(&route), 4 * 1_415);
    assert_eq!(net.route_length(&vec![0, 5, 4]), 6_000);
}

#[test]
fn a_network_is_valid_when_its_links_are_in_range() {
    let mut net = grid();
    assert!(net.is_wf());
    net.links.push((2, 8));
    assert!(!net.is_wf());
    net.links.pop();
    net.links.push((8, 0));
    assert!(!net.is_wf());
    assert!(network(vec![], vec![]).is_wf());
}

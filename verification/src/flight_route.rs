//! From two approach vectors to what the path construction needs: the
//! waypoints to pass, a position near each of them, and the legs between
//! the turns.

use vstd::prelude::*;

use crate::flight_path::{
    approach_failed, assembled, get_flight_path, leg_failed, rewound, Path, TurnGeometry,
};
use crate::network::{Network, RouteError};
use crate::random::random_in;
use crate::router::get_waypoint_route;
use crate::turns::{flight_legs, legs_of, Leg};
use crate::vector::{Direction, FromLoc, Point, Vector};

verus! {

/// Largest offset, along each axis, of a flown position from its waypoint.
pub const JITTER: i32 = 50;

/// The route of one flight: the waypoints it passes (as positions in the
/// network's waypoint list), the position at which it passes each, and the
/// legs between its turns.
#[derive(Clone, Debug, PartialEq, Eq)]
pub struct FlightRoute {
    pub waypoints: Vec<usize>,
    pub positions: Vec<Point>,
    pub legs: Vec<Leg>,
}

/// `q` lies at or beyond `p` along both axes, by no more than the jitter.
pub open spec fn within_jitter(p: Point, q: Point) -> bool {
    &&& p.x <= q.x <= p.x + JITTER
    &&& p.y <= q.y <= p.y + JITTER
}

/// Distance by which a runway's vector is extended to form an approach
/// vector.
pub const STANDOFF: i32 = 500;

/// Radius of every turn of a flight path.
pub const MAX_TURN_RADIUS: i32 = 100;

/// The coordinate nearest to `v` that the lattice has.
pub open spec fn capped(v: int) -> int {
    if v > i32::MAX {
        i32::MAX as int
    } else if v < i32::MIN {
        i32::MIN as int
    } else {
        v
    }
}

/// `a + b`, held back at the edge of the lattice.
fn add_capped(a: i32, b: i32) -> (r: i32)
    ensures
        r == capped(a + b),
{
    let sum: i64 = a as i64 + b as i64;
    if sum > i32::MAX as i64 {
        i32::MAX
    } else if sum < i32::MIN as i64 {
        i32::MIN
    } else {
        sum as i32
    }
}

/// The position `(dx, dy)` beyond `p`, held back at the edge of the lattice.
pub fn offset_by(p: Point, dx: i32, dy: i32) -> (q: Point)
    ensures
        q.x == capped(p.x + dx),
        q.y == capped(p.y + dy),
{
    Point { x: add_capped(p.x, dx), y: add_capped(p.y, dy) }
}

/// Moves each position by a random offset of at most the jitter along each
/// axis, as by `offset_by`.
pub fn jitter(positions: &mut Vec<Point>)
    ensures
        final(positions).len() == old(positions).len(),
        forall|i: int|
            0 <= i < old(positions).len() ==> within_jitter(
                old(positions)[i],
                #[trigger] final(positions)[i],
            ),
{
    let mut i: usize = 0;
    while i < positions.len()
        invariant
            i <= positions.len(),
            positions.len() == old(positions).len(),
            forall|k: int| 0 <= k < i ==> within_jitter(old(positions)[k], #[trigger] positions[k]),
            forall|k: int| i <= k < positions.len() ==> #[trigger] positions[k] == old(positions)[k],
        decreases positions.len() - i,
    {
        let p = positions[i];
        let dx = random_in(0, JITTER);
        let dy = random_in(0, JITTER);
        positions[i] = offset_by(p, dx, dy);
        i += 1;
    }
}

/// `route` is a route of a flight between the approach vectors `start` and
/// `end`: the shortest way through the network from the waypoint nearest to
/// the head of `start` to the one nearest to the tail of `end`, without a
/// waypoint twice, flown past each waypoint within the jitter, with the
/// legs that the turns on the way call for.
pub open spec fn route_planned(
    net: &Network,
    start: FromLoc<Point>,
    end: FromLoc<Point>,
    route: FlightRoute,
) -> bool {
    let from = net.nearest_to(start.head_x(), start.head_y()) as usize;
    let to = net.nearest_to(end.tail.x as int, end.tail.y as int) as usize;
    &&& net.waypoints.len() > 0
    &&& net.connects(route.waypoints@, from, to)
    &&& forall|other: Seq<usize>| #[trigger]
        net.connects(other, from, to) ==> net.route_cost(route.waypoints@) <= net.route_cost(other)
    &&& route.waypoints@.no_duplicates()
    &&& route.positions.len() == route.waypoints.len()
    &&& forall|i: int|
        0 <= i < route.waypoints.len() ==> within_jitter(
            net.waypoints[route.waypoints[i] as int].coords,
            #[trigger] route.positions[i],
        )
    &&& route.legs@ == legs_of(start, end, route.positions@)
}

/// Why there is no route between the approach vectors `start` and `end`:
/// `ReferenceDataError` where the network has no waypoint, `RouteNotFound`
/// where it has some but no route joins the two nearest ones.
pub open spec fn route_refused(
    net: &Network,
    start: FromLoc<Point>,
    end: FromLoc<Point>,
    e: RouteError,
) -> bool {
    let from = net.nearest_to(start.head_x(), start.head_y()) as usize;
    let to = net.nearest_to(end.tail.x as int, end.tail.y as int) as usize;
    match e {
        RouteError::ReferenceDataError => net.waypoints.len() == 0,
        RouteError::RouteNotFound => {
            &&& net.waypoints.len() > 0
            &&& forall|other: Seq<usize>| !#[trigger] net.connects(other, from, to)
        },
    }
}

/// The route of a flight between two approach vectors: the shortest way
/// through the network from the waypoint nearest to the head of `start` to
/// the one nearest to the tail of `end`, flown past each waypoint within the
/// jitter, with the legs that the turns on the way call for.
///
/// Fails with `ReferenceDataError` exactly when the network has no waypoint,
/// and with `RouteNotFound` exactly when no route joins the two waypoints.
pub fn get_flight_route(net: &Network, start: FromLoc<Point>, end: FromLoc<Point>) -> (r: Result<
    FlightRoute,
    RouteError,
>)
    requires
        net.wf(),
    ensures
        match r {
            Ok(route) => route_planned(net, start, end, route),
            Err(e) => route_refused(net, start, end, e),
        },
{
    match get_waypoint_route(net, start, end) {
        Err(e) => Err(e),
        Ok((waypoints, positions)) => {
            let mut positions = positions;
            jitter(&mut positions);
            let legs = flight_legs(start, end, &positions);
            Ok(FlightRoute { waypoints, positions, legs })
        },
    }
}

/// Why a flight could not be planned.
#[derive(Copy, Clone, Debug, PartialEq, Eq)]
pub enum PlanError<E> {
    /// There is no route through the network.
    Route(RouteError),
    /// A construction of the geometry broke down.
    Geometry(E),
}

/// The path `path` is what the geometry gives over the legs of `route`,
/// from the head of `start` to the tail of `end`, with the signs of its
/// arcs settled.
pub open spec fn path_flown<T: Vector, A, G: TurnGeometry<T, A>>(
    geometry: &G,
    start: FromLoc<T>,
    end: FromLoc<T>,
    route: FlightRoute,
    path: Seq<Path<T, A>>,
) -> bool where FromLoc<T>: Direction<T> {
    exists|raw: Seq<Path<T, A>>|
        #[trigger] assembled(geometry, start, end, route.legs@, raw) && rewound(
            geometry,
            start,
            end,
            raw,
            path,
        )
}

/// The route and the path of a flight between two approach vectors, each
/// given on the lattice (for the route) and as the geometry takes it (for
/// the path): the route as by `get_flight_route`, and the path assembled by
/// the geometry over the legs of that route.
///
/// Fails with the error of the route where there is none, and with the
/// error of the geometry where one of its constructions breaks down on the
/// legs of the route.
pub fn plan_flight<T: Vector, A: Copy, G: TurnGeometry<T, A>>(
    net: &Network,
    geometry: &G,
    lattice_start: FromLoc<Point>,
    lattice_end: FromLoc<Point>,
    start: FromLoc<T>,
    end: FromLoc<T>,
) -> (r: Result<(FlightRoute, Vec<Path<T, A>>), PlanError<G::Degenerate>>) where
    FromLoc<T>: Direction<T>,

    requires
        net.wf(),
    ensures
        match r {
            Ok((route, path)) => {
                &&& route_planned(net, lattice_start, lattice_end, route)
                &&& path_flown(geometry, start, end, route, path@)
            },
            Err(PlanError::Route(e)) => route_refused(net, lattice_start, lattice_end, e),
            Err(PlanError::Geometry(e)) => exists|route: FlightRoute|
                {
                    &&& #[trigger] route_planned(net, lattice_start, lattice_end, route)
                    &&& leg_failed(geometry, start, route.legs@, e) || approach_failed(
                        geometry,
                        start,
                        end,
                        route.legs@,
                        e,
                    )
                },
        },
{
    let route = match get_flight_route(net, lattice_start, lattice_end) {
        Ok(route) => route,
        Err(e) => {
            return Err(PlanError::Route(e));
        },
    };
    match get_flight_path(geometry, start, end, &route.legs) {
        Ok(path) => Ok((route, path)),
        Err(e) => {
            proof {
                assert(route_planned(net, lattice_start, lattice_end, route));
            }
            Err(PlanError::Geometry(e))
        },
    }
}

} // verus!

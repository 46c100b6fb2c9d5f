//! The assembly of a flight path: arcs of one radius joined by straight
//! tangents, from the head of the start approach vector over the legs
//! between turns to the tail of the end approach vector. The numbers come from a geometry that the caller
//! supplies; which segment follows which is settled here.

use vstd::prelude::*;

use crate::iter::BefAftWindowIterator;
use crate::turns::Leg;
use crate::types::Rotation;
use crate::vector::{Direction, FromLoc, Point, Vector};

verus! {

/// An arc about `centre` that starts at `from` and sweeps through `angle`.
#[derive(Clone, Copy, Debug, PartialEq)]
pub struct Sweep<T: Vector, A> {
    pub centre: T,
    pub from: T,
    pub angle: A,
}

/// A segment of a flight path.
#[derive(Clone, Copy, Debug, PartialEq)]
pub enum Path<T: Vector, A> {
    Straight(FromLoc<T>),
    Curve { centre: T, from: T, angle: A },
}

impl<T: Vector, A> Path<T, A> {
    /// The arc as a segment.
    pub open spec fn of_arc(arc: Sweep<T, A>) -> Path<T, A> {
        Path::Curve { centre: arc.centre, from: arc.from, angle: arc.angle }
    }
}

/// The numeric side of path construction, for turns of one fixed radius.
pub trait TurnGeometry<T: Vector, A> {
    /// Why a construction can break down.
    type Degenerate;

    /// The way from a heading with a known turn sense to the circle about
    /// the waypoint `end_centre`: the arc that leaves the heading, and the
    /// tangent that leads to the circle.
    fn path_between(
        &self,
        start_vec: FromLoc<T>,
        start_rot: Rotation,
        end_centre: Point,
        end_rot: Rotation,
    ) -> Result<(Sweep<T, A>, FromLoc<T>), Self::Degenerate>;

    /// The way from a heading into the approach vector `end` by two turns of
    /// the sense `rot`: the arc that leaves the heading, the tangent, and the
    /// arc that ends on `end`.
    fn final_turn(&self, heading: FromLoc<T>, rot: Rotation, end: FromLoc<T>) -> Result<
        (Sweep<T, A>, FromLoc<T>, Sweep<T, A>),
        Self::Degenerate,
    >;

    /// The straight run from the head of `heading` to `target`.
    fn straight_to(&self, heading: FromLoc<T>, target: T) -> FromLoc<T>;

    /// The angle that differs from `angle` by full turns and has the sign of
    /// the turn sense `rot`.
    fn wind(&self, angle: A, rot: Rotation) -> A;
}

/// The heading with which leg `k` is flown: the start for the first, the
/// tangent of the leg before for the others. `segments` holds an arc and a
/// tangent for each leg.
pub open spec fn heading_before<T: Vector, A>(
    start: FromLoc<T>,
    segments: Seq<Path<T, A>>,
    k: int,
) -> FromLoc<T> {
    if k == 0 {
        start
    } else {
        segments[2 * k - 1]->Straight_0
    }
}

/// The two segments of leg `k` are what the geometry gives for it, flown
/// from the heading before it.
pub open spec fn leg_flown<T: Vector, A, G: TurnGeometry<T, A>>(
    geometry: &G,
    start: FromLoc<T>,
    legs: Seq<Leg>,
    segments: Seq<Path<T, A>>,
    k: int,
) -> bool {
    exists|arc: Sweep<T, A>, tangent: FromLoc<T>|
        {
            &&& #[trigger] call_ensures(
                G::path_between,
                (
                    geometry,
                    heading_before(start, segments, k),
                    legs[k].start_rot,
                    legs[k].end_centre,
                    legs[k].end_rot,
                ),
                Ok((arc, tangent)),
            )
            &&& segments[2 * k] == Path::of_arc(arc)
            &&& segments[2 * k + 1] == Path::<T, A>::Straight(tangent)
        }
}

/// `segments` holds an arc and a tangent for each leg, each leg flown from
/// the tangent of the leg before it.
pub open spec fn legs_flown<T: Vector, A, G: TurnGeometry<T, A>>(
    geometry: &G,
    start: FromLoc<T>,
    legs: Seq<Leg>,
    segments: Seq<Path<T, A>>,
) -> bool {
    &&& segments.len() == 2 * legs.len()
    &&& forall|k: int| 0 <= k < legs.len() ==> #[trigger] leg_flown(geometry, start, legs, segments, k)
}

/// The geometry broke down with `e` on one of the legs, after the legs
/// before it were flown.
pub open spec fn leg_failed<T: Vector, A, G: TurnGeometry<T, A>>(
    geometry: &G,
    start: FromLoc<T>,
    legs: Seq<Leg>,
    e: G::Degenerate,
) -> bool {
    exists|k: int, segments: Seq<Path<T, A>>|
        {
            &&& 0 <= k < legs.len()
            &&& #[trigger] legs_flown(geometry, start, legs.take(k), segments)
            &&& call_ensures(
                G::path_between,
                (
                    geometry,
                    heading_before(start, segments, k),
                    legs[k].start_rot,
                    legs[k].end_centre,
                    legs[k].end_rot,
                ),
                Err(e),
            )
        }
}

/// Flies the legs in turn, each from the tangent of the leg before it, and
/// returns their segments with the heading that the last one ends with. The
/// first construction that breaks down ends the flight.
pub fn fly_legs<T: Vector, A, G: TurnGeometry<T, A>>(
    geometry: &G,
    start: FromLoc<T>,
    legs: &Vec<Leg>,
) -> (r: Result<(Vec<Path<T, A>>, FromLoc<T>), G::Degenerate>)
    ensures
        match r {
            Ok((segments, heading)) => {
                &&& legs_flown(geometry, start, legs@, segments@)
                &&& heading == heading_before(start, segments@, legs.len() as int)
            },
            Err(e) => leg_failed(geometry, start, legs@, e),
        },
{
    let mut segments: Vec<Path<T, A>> = Vec::new();
    let mut heading = start;
    let mut k: usize = 0;
    while k < legs.len()
        invariant
            k <= legs.len(),
            legs_flown(geometry, start, legs@.take(k as int), segments@),
            heading == heading_before(start, segments@, k as int),
        decreases legs.len() - k,
    {
        let leg = legs[k];
        let ghost before = segments@;
        match geometry.path_between(heading, leg.start_rot, leg.end_centre, leg.end_rot) {
            Err(e) => {
                proof {
                    assert(legs_flown(geometry, start, legs@.take(k as int), segments@));
                    assert(leg_failed(geometry, start, legs@, e));
                }
                return Err(e);
            },
            Ok((arc, tangent)) => {
                segments.push(Path::Curve { centre: arc.centre, from: arc.from, angle: arc.angle });
                segments.push(Path::Straight(tangent));
                proof {
                    let now = segments@;
                    assert forall|j: int| 0 <= j < k + 1 implies #[trigger] leg_flown(
                        geometry,
                        start,
                        legs@.take(k + 1),
                        now,
                        j,
                    ) by {
                        if j < k {
                            assert(leg_flown(geometry, start, legs@.take(k as int), before, j));
                            assert(heading_before(start, now, j) == heading_before(start, before, j));
                            assert(now[2 * j] == before[2 * j]);
                            assert(now[2 * j + 1] == before[2 * j + 1]);
                        } else {
                            assert(heading_before(start, now, j) == heading);
                            assert(now[2 * j] == Path::of_arc(arc));
                        }
                    }
                }
                heading = tangent;
            },
        }
        k += 1;
    }
    proof {
        assert(legs@.take(legs.len() as int) =~= legs@);
    }
    Ok((segments, heading))
}

/// What is flown from the last heading into `end`: where no turn is called
/// for, the straight run to the tail of `end`; else the final turn that the
/// geometry gives.
pub open spec fn approach_flown<T: Vector, A, G: TurnGeometry<T, A>>(
    geometry: &G,
    heading: FromLoc<T>,
    end: FromLoc<T>,
    turn: Option<Rotation>,
    segments: Seq<Path<T, A>>,
) -> bool {
    match turn {
        None => exists|run: FromLoc<T>|
            {
                &&& #[trigger] call_ensures(G::straight_to, (geometry, heading, end.tail), run)
                &&& segments == seq![Path::<T, A>::Straight(run)]
            },
        Some(rot) => exists|first: Sweep<T, A>, tangent: FromLoc<T>, last: Sweep<T, A>|
            {
                &&& #[trigger] call_ensures(
                    G::final_turn,
                    (geometry, heading, rot, end),
                    Ok((first, tangent, last)),
                )
                &&& segments == seq![
                    Path::of_arc(first),
                    Path::<T, A>::Straight(tangent),
                    Path::of_arc(last),
                ]
            },
    }
}

/// The geometry broke down with `e` on the final turn, after all legs were
/// flown.
pub open spec fn approach_failed<T: Vector, A, G: TurnGeometry<T, A>>(
    geometry: &G,
    start: FromLoc<T>,
    end: FromLoc<T>,
    legs: Seq<Leg>,
    e: G::Degenerate,
) -> bool where FromLoc<T>: Direction<T> {
    exists|body: Seq<Path<T, A>>, rot: Rotation|
        {
            &&& #[trigger] legs_flown(geometry, start, legs, body)
            &&& call_ensures(
                <FromLoc<T> as Direction<T>>::turning_rot,
                (&heading_before(start, body, legs.len() as int), end.tail),
                Some(rot),
            )
            &&& #[trigger] call_ensures(
                G::final_turn,
                (geometry, heading_before(start, body, legs.len() as int), rot, end),
                Err(e),
            )
        }
}

/// `raw` is the path before the signs of its arcs are settled: an arc and a
/// tangent for each leg, and then the approach into `end`. It leaves the
/// head of `start` and reaches the tail of `end`; the approach vectors
/// themselves are no part of it.
pub open spec fn assembled<T: Vector, A, G: TurnGeometry<T, A>>(
    geometry: &G,
    start: FromLoc<T>,
    end: FromLoc<T>,
    legs: Seq<Leg>,
    raw: Seq<Path<T, A>>,
) -> bool where FromLoc<T>: Direction<T> {
    let n = legs.len() as int;
    let body = raw.take(2 * n);
    let heading = heading_before(start, body, n);
    &&& raw.len() >= 2 * n + 1
    &&& legs_flown(geometry, start, legs, body)
    &&& exists|turn: Option<Rotation>|
        {
            &&& #[trigger] call_ensures(
                <FromLoc<T> as Direction<T>>::turning_rot,
                (&heading, end.tail),
                turn,
            )
            &&& approach_flown(geometry, heading, end, turn, raw.skip(2 * n))
        }
}

/// What is flown before segment `i`: the start approach vector before the
/// first segment, else the segment before.
pub open spec fn before_at<T: Vector, A>(start: FromLoc<T>, raw: Seq<Path<T, A>>, i: int) -> Path<
    T,
    A,
> {
    if i == 0 {
        Path::Straight(start)
    } else {
        raw[i - 1]
    }
}

/// What is flown after segment `i`: the end approach vector after the last
/// segment, else the segment after.
pub open spec fn after_at<T: Vector, A>(end: FromLoc<T>, raw: Seq<Path<T, A>>, i: int) -> Path<
    T,
    A,
> {
    if i == raw.len() - 1 {
        Path::Straight(end)
    } else {
        raw[i + 1]
    }
}

/// Segment `i` of `route` is segment `i` of `raw` with its sign settled: an
/// arc between two straights is wound to the sense of the turn from the one
/// straight to the tail of the other, if there is such a turn; every other
/// segment stays as it is.
pub open spec fn rewound_at<T: Vector, A, G: TurnGeometry<T, A>>(
    geometry: &G,
    start: FromLoc<T>,
    end: FromLoc<T>,
    raw: Seq<Path<T, A>>,
    route: Seq<Path<T, A>>,
    i: int,
) -> bool where FromLoc<T>: Direction<T> {
    let bef = before_at(start, raw, i);
    let aft = after_at(end, raw, i);
    if bef is Straight && raw[i] is Curve && aft is Straight {
        exists|turn: Option<Rotation>|
            {
                &&& #[trigger] call_ensures(
                    <FromLoc<T> as Direction<T>>::turning_rot,
                    (&bef->Straight_0, aft->Straight_0.tail),
                    turn,
                )
                &&& match turn {
                    None => route[i] == raw[i],
                    Some(rot) => {
                        &&& route[i] is Curve
                        &&& route[i]->centre == raw[i]->centre
                        &&& route[i]->from == raw[i]->from
                        &&& call_ensures(G::wind, (geometry, raw[i]->angle, rot), route[i]->angle)
                    },
                }
            }
    } else {
        route[i] == raw[i]
    }
}

/// `route` is `raw` with the signs of its arcs settled.
pub open spec fn rewound<T: Vector, A, G: TurnGeometry<T, A>>(
    geometry: &G,
    start: FromLoc<T>,
    end: FromLoc<T>,
    raw: Seq<Path<T, A>>,
    route: Seq<Path<T, A>>,
) -> bool where FromLoc<T>: Direction<T> {
    &&& route.len() == raw.len()
    &&& forall|i: int|
        0 <= i < raw.len() ==> #[trigger] rewound_at(geometry, start, end, raw, route, i)
}

/// The path from the head of `start` over the legs to the tail of `end`,
/// before the signs of its arcs are settled.
pub fn assemble<T: Vector, A, G: TurnGeometry<T, A>>(
    geometry: &G,
    start: FromLoc<T>,
    end: FromLoc<T>,
    legs: &Vec<Leg>,
) -> (r: Result<Vec<Path<T, A>>, G::Degenerate>) where FromLoc<T>: Direction<T>
    ensures
        r matches Ok(raw) ==> assembled(geometry, start, end, legs@, raw@),
        r matches Err(e) ==> leg_failed(geometry, start, legs@, e) || approach_failed(
            geometry,
            start,
            end,
            legs@,
            e,
        ),
{
    let (body, heading) = match fly_legs(geometry, start, legs) {
        Ok(flown) => flown,
        Err(e) => {
            return Err(e);
        },
    };
    let ghost flown = body@;
    let mut raw = body;
    let turn = heading.turning_rot(end.tail);
    match turn {
        None => {
            let run = geometry.straight_to(heading, end.tail);
            raw.push(Path::Straight(run));
            proof {
                assert(raw@.skip(flown.len() as int) =~= seq![Path::<T, A>::Straight(run)]);
            }
        },
        Some(rot) => {
            match geometry.final_turn(heading, rot, end) {
                Err(e) => {
                    proof {
                        assert(approach_failed(geometry, start, end, legs@, e));
                    }
                    return Err(e);
                },
                Ok((first, tangent, last)) => {
                    raw.push(Path::Curve { centre: first.centre, from: first.from, angle: first.angle });
                    raw.push(Path::Straight(tangent));
                    raw.push(Path::Curve { centre: last.centre, from: last.from, angle: last.angle });
                    proof {
                        assert(raw@.skip(flown.len() as int) =~= seq![
                            Path::of_arc(first),
                            Path::<T, A>::Straight(tangent),
                            Path::of_arc(last),
                        ]);
                    }
                },
            }
        },
    }
    proof {
        assert(raw@.take(2 * legs.len()) =~= flown);
        assert(approach_flown(geometry, heading, end, turn, raw@.skip(2 * legs.len())));
    }
    Ok(raw)
}

/// Settles the signs of the arcs of `route`, the path between the approach
/// vectors `start` and `end`: each arc between two straights is wound to
/// the sense of the turn from the one to the other.
pub fn fix_curve_directions<T: Vector, A: Copy, G: TurnGeometry<T, A>>(
    geometry: &G,
    start: FromLoc<T>,
    end: FromLoc<T>,
    route: &mut Vec<Path<T, A>>,
) where FromLoc<T>: Direction<T>
    ensures
        rewound(geometry, start, end, old(route)@, final(route)@),
{
    let ghost raw = route@;
    let mut seen: Vec<Path<T, A>> = Vec::new();
    seen.push(Path::Straight(start));
    let mut j: usize = 0;
    while j < route.len()
        invariant
            j <= route.len(),
            route@ == raw,
            seen.len() == j + 1,
            seen[0] == Path::<T, A>::Straight(start),
            forall|k: int| 0 <= k < j ==> seen[k + 1] == #[trigger] raw[k],
        decreases route.len() - j,
    {
        seen.push(route[j]);
        j += 1;
    }
    seen.push(Path::Straight(end));
    let mut windows = BefAftWindowIterator::new(&seen);
    let mut i: usize = 0;
    loop
        invariant
            raw == old(route)@,
            seen.len() == raw.len() + 2,
            seen[0] == Path::<T, A>::Straight(start),
            seen[seen.len() - 1] == Path::<T, A>::Straight(end),
            forall|k: int| 0 <= k < raw.len() ==> seen[k + 1] == #[trigger] raw[k],
            windows.items() == seen@,
            windows.upcoming() == i,
            i <= seen.len(),
            route.len() == raw.len(),
            forall|k: int|
                0 <= k < i - 1 && k < raw.len() ==> #[trigger] rewound_at(
                    geometry,
                    start,
                    end,
                    raw,
                    route@,
                    k,
                ),
            forall|k: int| i - 1 <= k < raw.len() && 0 <= k ==> #[trigger] route[k] == raw[k],
        ensures
            i == seen.len(),
            route.len() == raw.len(),
            raw == old(route)@,
            forall|k: int|
                0 <= k < raw.len() ==> #[trigger] rewound_at(geometry, start, end, raw, route@, k),
        decreases seen.len() - i,
    {
        let ghost before = route@;
        match windows.next() {
            None => {
                break ;
            },
            Some((bef, this, aft)) => {
                if i >= 1 && i < seen.len() - 1 {
                    proof {
                        assert(raw[i - 1] == seen[i - 1 + 1]);
                        assert(*this == raw[i - 1]);
                        assert(*bef->0 == before_at(start, raw, i - 1)) by {
                            if i >= 2 {
                                assert(raw[i - 2] == seen[i - 2 + 1]);
                            }
                        }
                        assert(*aft->0 == after_at(end, raw, i - 1)) by {
                            if i < raw.len() {
                                assert(raw[i as int] == seen[i + 1]);
                            }
                        }
                    }
                    match (bef, this, aft) {
                        (
                            Some(Path::Straight(fl1)),
                            Path::Curve { centre, from, angle },
                            Some(Path::Straight(fl2)),
                        ) => {
                            match fl1.turning_rot(fl2.tail) {
                                None => {},
                                Some(rot) => {
                                    let wound = geometry.wind(*angle, rot);
                                    route[i - 1] = Path::Curve {
                                        centre: *centre,
                                        from: *from,
                                        angle: wound,
                                    };
                                },
                            }
                        },
                        _ => {},
                    }
                    proof {
                        assert(rewound_at(geometry, start, end, raw, route@, i - 1));
                        assert forall|k: int| 0 <= k < i - 1 implies #[trigger] rewound_at(
                            geometry,
                            start,
                            end,
                            raw,
                            route@,
                            k,
                        ) by {
                            assert(rewound_at(geometry, start, end, raw, before, k));
                            assert(route@[k] == before[k]);
                        }
                    }
                }
                i += 1;
            },
        }
    }
}

/// The flight path from the head of `start` over the legs to the tail of
/// `end`: an arc and a tangent for each leg, then the approach into `end`
/// (one straight run where no turn is called for, else a final turn), with
/// the signs of the arcs settled. The approach vectors themselves are no
/// part of the path. The first construction of the geometry that breaks down
/// ends the assembly.
pub fn get_flight_path<T: Vector, A: Copy, G: TurnGeometry<T, A>>(
    geometry: &G,
    start: FromLoc<T>,
    end: FromLoc<T>,
    legs: &Vec<Leg>,
) -> (r: Result<Vec<Path<T, A>>, G::Degenerate>) where FromLoc<T>: Direction<T>
    ensures
        r matches Ok(route) ==> exists|raw: Seq<Path<T, A>>|
            #[trigger] assembled(geometry, start, end, legs@, raw) && rewound(
                geometry,
                start,
                end,
                raw,
                route@,
            ),
        r matches Err(e) ==> leg_failed(geometry, start, legs@, e) || approach_failed(
            geometry,
            start,
            end,
            legs@,
            e,
        ),
{
    match assemble(geometry, start, end, legs) {
        Err(e) => Err(e),
        Ok(raw) => {
            let mut route = raw;
            fix_curve_directions(geometry, start, end, &mut route);
            Ok(route)
        },
    }
}

/// The segments of `raw` after those of the legs.
pub open spec fn approach_of<T: Vector, A>(legs: Seq<Leg>, raw: Seq<Path<T, A>>) -> Seq<Path<T, A>> {
    raw.skip(2 * (legs.len() as int))
}

/// The heading that the legs end with.
pub open spec fn last_heading<T: Vector, A>(
    start: FromLoc<T>,
    legs: Seq<Leg>,
    raw: Seq<Path<T, A>>,
) -> FromLoc<T> {
    heading_before(start, raw.take(2 * (legs.len() as int)), legs.len() as int)
}

/// The turn that was found towards the tail of `end` after the legs, with
/// the approach that was flown for it.
pub proof fn lemma_approach<T: Vector, A, G: TurnGeometry<T, A>>(
    geometry: &G,
    start: FromLoc<T>,
    end: FromLoc<T>,
    legs: Seq<Leg>,
    raw: Seq<Path<T, A>>,
) -> (turn: Option<Rotation>) where FromLoc<T>: Direction<T>
    requires
        assembled(geometry, start, end, legs, raw),
    ensures
        call_ensures(
            <FromLoc<T> as Direction<T>>::turning_rot,
            (&last_heading(start, legs, raw), end.tail),
            turn,
        ),
        approach_flown(geometry, last_heading(start, legs, raw), end, turn, approach_of(legs, raw)),
        approach_of(legs, raw).len() == 1 || approach_of(legs, raw).len() == 3,
{
    let n = legs.len() as int;
    let body = raw.take(2 * n);
    let heading = heading_before(start, body, n);
    let approach = raw.skip(2 * n);
    assert(exists|turn: Option<Rotation>|
        {
            &&& #[trigger] call_ensures(
                <FromLoc<T> as Direction<T>>::turning_rot,
                (&heading, end.tail),
                turn,
            )
            &&& approach_flown(geometry, heading, end, turn, approach)
        });
    choose|turn: Option<Rotation>|
        {
            &&& #[trigger] call_ensures(
                <FromLoc<T> as Direction<T>>::turning_rot,
                (&heading, end.tail),
                turn,
            )
            &&& approach_flown(geometry, heading, end, turn, approach)
        }
}

/// An assembled path holds an arc and a straight for each leg, and then
/// either one straight or an arc, a straight and an arc.
pub proof fn lemma_assembled_shape<T: Vector, A, G: TurnGeometry<T, A>>(
    geometry: &G,
    start: FromLoc<T>,
    end: FromLoc<T>,
    legs: Seq<Leg>,
    raw: Seq<Path<T, A>>,
) where FromLoc<T>: Direction<T>
    requires
        assembled(geometry, start, end, legs, raw),
    ensures
        raw.len() == 2 * legs.len() + 1 || raw.len() == 2 * legs.len() + 3,
        forall|k: int|
            0 <= k < legs.len() ==> (#[trigger] raw[2 * k]) is Curve && raw[2 * k + 1] is Straight,
        raw.len() == 2 * legs.len() + 1 ==> raw[raw.len() - 1] is Straight,
        raw.len() == 2 * legs.len() + 3 ==> raw[raw.len() - 3] is Curve && raw[raw.len() - 2] is Straight
            && raw[raw.len() - 1] is Curve,
{
    let n = legs.len() as int;
    let body = raw.take(2 * n);
    let approach = raw.skip(2 * n);
    let turn = lemma_approach(geometry, start, end, legs, raw);
    assert forall|k: int| 0 <= k < legs.len() implies (#[trigger] raw[2 * k]) is Curve && raw[2 * k
        + 1] is Straight by {
        assert(leg_flown(geometry, start, legs, body, k));
        assert(body[2 * k] == raw[2 * k]);
        assert(body[2 * k + 1] == raw[2 * k + 1]);
    }
    assert(approach[0] == raw[2 * n]);
    if approach.len() == 3 {
        assert(approach[1] == raw[2 * n + 1]);
        assert(approach[2] == raw[2 * n + 2]);
    }
}

/// Settling the signs changes no straight and leaves every arc an arc about
/// the same centre from the same point.
pub proof fn lemma_rewound_keeps_shape<T: Vector, A, G: TurnGeometry<T, A>>(
    geometry: &G,
    start: FromLoc<T>,
    end: FromLoc<T>,
    raw: Seq<Path<T, A>>,
    route: Seq<Path<T, A>>,
    i: int,
) where FromLoc<T>: Direction<T>
    requires
        rewound(geometry, start, end, raw, route),
        0 <= i < raw.len(),
    ensures
        raw[i] is Straight ==> route[i] == raw[i],
        raw[i] is Curve ==> route[i] is Curve && route[i]->centre == raw[i]->centre && route[i]->from
            == raw[i]->from,
{
    assert(rewound_at(geometry, start, end, raw, route, i));
}

/// Without legs and without a turn towards the tail of `end`, the path is
/// one straight: the run that the geometry gives from the head of `start`
/// to the tail of `end`.
pub proof fn lemma_straight_in<T: Vector, A, G: TurnGeometry<T, A>>(
    geometry: &G,
    start: FromLoc<T>,
    end: FromLoc<T>,
    legs: Seq<Leg>,
    raw: Seq<Path<T, A>>,
    route: Seq<Path<T, A>>,
) where FromLoc<T>: Direction<T>
    requires
        legs.len() == 0,
        assembled(geometry, start, end, legs, raw),
        rewound(geometry, start, end, raw, route),
        forall|turn: Option<Rotation>|
            call_ensures(<FromLoc<T> as Direction<T>>::turning_rot, (&start, end.tail), turn)
                ==> turn is None,
    ensures
        route.len() == 1,
        route[0] is Straight,
        call_ensures(G::straight_to, (geometry, start, end.tail), route[0]->Straight_0),
{
    let turn = lemma_approach(geometry, start, end, legs, raw);
    let approach = approach_of(legs, raw);
    assert(turn is None);
    assert(approach[0] == raw[0]);
    assert(rewound_at(geometry, start, end, raw, route, 0));
}

/// Where a segment begins: a straight at its tail, an arc at its first
/// point.
pub open spec fn begin_of<T: Vector, A>(p: Path<T, A>) -> T {
    match p {
        Path::Straight(run) => run.tail,
        Path::Curve { from, .. } => from,
    }
}

/// The constructions of the geometry only give arcs whose centre and first
/// point are `good`.
pub open spec fn arcs_are<T: Vector, A, G: TurnGeometry<T, A>>(
    geometry: &G,
    good: spec_fn(T, T) -> bool,
) -> bool {
    &&& forall|
        v: FromLoc<T>,
        a: Rotation,
        c: Point,
        b: Rotation,
        arc: Sweep<T, A>,
        tangent: FromLoc<T>,
    | #[trigger]
        call_ensures(G::path_between, (geometry, v, a, c, b), Ok((arc, tangent))) ==> good(
            arc.centre,
            arc.from,
        )
    &&& forall|
        h: FromLoc<T>,
        rot: Rotation,
        end: FromLoc<T>,
        first: Sweep<T, A>,
        tangent: FromLoc<T>,
        last: Sweep<T, A>,
    | #[trigger]
        call_ensures(G::final_turn, (geometry, h, rot, end), Ok((first, tangent, last))) ==> good(
            first.centre,
            first.from,
        ) && good(last.centre, last.from)
}

/// What holds of the centre and first point of every arc that the geometry
/// gives holds of every arc of the path: with a geometry whose arcs all have
/// one radius, so have the arcs of the path.
pub proof fn lemma_arcs_keep<T: Vector, A, G: TurnGeometry<T, A>>(
    geometry: &G,
    start: FromLoc<T>,
    end: FromLoc<T>,
    legs: Seq<Leg>,
    raw: Seq<Path<T, A>>,
    route: Seq<Path<T, A>>,
    good: spec_fn(T, T) -> bool,
) where FromLoc<T>: Direction<T>
    requires
        assembled(geometry, start, end, legs, raw),
        rewound(geometry, start, end, raw, route),
        arcs_are(geometry, good),
    ensures
        forall|i: int|
            0 <= i < route.len() && (#[trigger] route[i]) is Curve ==> good(
                route[i]->centre,
                route[i]->from,
            ),
{
    lemma_assembled_shape(geometry, start, end, legs, raw);
    let n = legs.len() as int;
    let body = raw.take(2 * n);
    let approach = raw.skip(2 * n);
    let turn = lemma_approach(geometry, start, end, legs, raw);
    assert forall|i: int| 0 <= i < route.len() && (#[trigger] route[i]) is Curve implies good(
        route[i]->centre,
        route[i]->from,
    ) by {
        lemma_rewound_keeps_shape(geometry, start, end, raw, route, i);
        assert(raw[i] is Curve);
        if i < 2 * n {
            if i % 2 == 1 {
                let k = (i - 1) / 2;
                assert(raw[2 * k] is Curve && raw[2 * k + 1] is Straight);
            } else {
                let k = i / 2;
                assert(leg_flown(geometry, start, legs, body, k));
                assert(body[2 * k] == raw[i]);
            }
        } else {
            assert(approach.len() == 3);
            assert(approach[0] == raw[2 * n]);
            assert(approach[1] == raw[2 * n + 1]);
            assert(approach[2] == raw[2 * n + 2]);
        }
    }
}

/// The constructions of the geometry join up: with `finish` as the point at
/// which a segment ends, each arc begins where the heading before it ends
/// and ends where its tangent begins, a straight run and a final turn reach
/// their target, and winding an arc does not move its end.
pub open spec fn joins_up<T: Vector, A, G: TurnGeometry<T, A>>(
    geometry: &G,
    finish: spec_fn(Path<T, A>) -> T,
) -> bool {
    &&& forall|
        v: FromLoc<T>,
        a: Rotation,
        c: Point,
        b: Rotation,
        arc: Sweep<T, A>,
        tangent: FromLoc<T>,
    | #[trigger]
        call_ensures(G::path_between, (geometry, v, a, c, b), Ok((arc, tangent))) ==> arc.from
            == finish(Path::Straight(v)) && finish(Path::of_arc(arc)) == tangent.tail
    &&& forall|
        h: FromLoc<T>,
        rot: Rotation,
        end: FromLoc<T>,
        first: Sweep<T, A>,
        tangent: FromLoc<T>,
        last: Sweep<T, A>,
    | #[trigger]
        call_ensures(G::final_turn, (geometry, h, rot, end), Ok((first, tangent, last))) ==> {
            &&& first.from == finish(Path::Straight(h))
            &&& finish(Path::of_arc(first)) == tangent.tail
            &&& last.from == finish(Path::Straight(tangent))
            &&& finish(Path::of_arc(last)) == end.tail
        }
    &&& forall|h: FromLoc<T>, target: T, run: FromLoc<T>| #[trigger]
        call_ensures(G::straight_to, (geometry, h, target), run) ==> run.tail == finish(
            Path::Straight(h),
        ) && finish(Path::Straight(run)) == target
    &&& forall|angle: A, rot: Rotation, wound: A, centre: T, from: T|
        #![trigger call_ensures(G::wind, (geometry, angle, rot), wound), finish(Path::Curve { centre, from, angle: wound })]
        call_ensures(G::wind, (geometry, angle, rot), wound) ==> finish(
            Path::Curve { centre, from, angle: wound },
        ) == finish(Path::Curve { centre, from, angle })
}

/// With a geometry whose constructions join up, the path is unbroken: it
/// begins where the start approach vector ends, every segment ends where
/// the next one begins, and the last ends on the tail of the end approach
/// vector.
pub proof fn lemma_path_continuous<T: Vector, A, G: TurnGeometry<T, A>>(
    geometry: &G,
    start: FromLoc<T>,
    end: FromLoc<T>,
    legs: Seq<Leg>,
    raw: Seq<Path<T, A>>,
    route: Seq<Path<T, A>>,
    finish: spec_fn(Path<T, A>) -> T,
) where FromLoc<T>: Direction<T>
    requires
        assembled(geometry, start, end, legs, raw),
        rewound(geometry, start, end, raw, route),
        joins_up(geometry, finish),
    ensures
        route.len() > 0,
        begin_of(route[0]) == finish(Path::Straight(start)),
        forall|i: int|
            0 <= i < route.len() - 1 ==> finish(#[trigger] route[i]) == begin_of(route[i + 1]),
        finish(route[route.len() - 1]) == end.tail,
{
    lemma_assembled_shape(geometry, start, end, legs, raw);
    let n = legs.len() as int;
    let body = raw.take(2 * n);
    let heading = heading_before(start, body, n);
    let approach = raw.skip(2 * n);
    let turn = lemma_approach(geometry, start, end, legs, raw);
    assert(approach[0] == raw[2 * n]);
    if approach.len() == 3 {
        assert(approach[1] == raw[2 * n + 1]);
        assert(approach[2] == raw[2 * n + 2]);
    }
    if n > 0 {
        assert(leg_flown(geometry, start, legs, body, n - 1));
        assert(body[2 * n - 1] == raw[2 * n - 1]);
        assert(leg_flown(geometry, start, legs, body, 0));
        assert(body[0] == raw[0]);
    }
    // before the signs are settled
    assert(begin_of(raw[0]) == finish(Path::Straight(start)));
    assert(finish(raw[raw.len() - 1]) == end.tail);
    assert forall|i: int| 0 <= i < raw.len() - 1 implies finish(#[trigger] raw[i]) == begin_of(
        raw[i + 1],
    ) by {
        if i + 1 < 2 * n {
            if i % 2 == 1 {
                // from the tangent of one leg into the arc of the next
                let k = (i + 1) / 2;
                assert(leg_flown(geometry, start, legs, body, k));
                assert(body[2 * k] == raw[i + 1]);
                assert(leg_flown(geometry, start, legs, body, k - 1));
                assert(body[2 * k - 1] == raw[i]);
            } else {
                // from the arc of a leg into its tangent
                let k = i / 2;
                assert(leg_flown(geometry, start, legs, body, k));
                assert(body[2 * k] == raw[i]);
                assert(body[2 * k + 1] == raw[i + 1]);
            }
        }
    }
    assert forall|i: int| 0 <= i < route.len() implies begin_of(#[trigger] route[i]) == begin_of(
        raw[i],
    ) && finish(route[i]) == finish(raw[i]) by {
        assert(rewound_at(geometry, start, end, raw, route, i));
    }
    assert forall|i: int| 0 <= i < route.len() - 1 implies finish(#[trigger] route[i]) == begin_of(
        route[i + 1],
    ) by {
        assert(finish(raw[i]) == begin_of(raw[i + 1]));
        assert(begin_of(route[i + 1]) == begin_of(raw[i + 1]));
    }
}

} // verus!

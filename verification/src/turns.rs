//! Which points of a route call for a turn, in which sense, and the legs
//! between consecutive turns that the path construction has to fly.

use vstd::prelude::*;

use crate::types::Rotation;
use crate::vector::{side_of, turn_for, Direction, FromLoc, Point};

verus! {

/// The turn that a heading from `(bx, by)` to `(tx, ty)` needs at its head to
/// go on towards `(ax, ay)`.
pub open spec fn turn_between(bx: int, by: int, tx: int, ty: int, ax: int, ay: int) -> Option<
    Rotation,
> {
    turn_for(side_of((tx - bx) * (ay - ty) - (ty - by) * (ax - tx)))
}

/// The turn at candidate `c` of a route: candidate 0 is the head of `start`,
/// looking at the first waypoint (or the tail of `end` if there is none);
/// candidate `i + 1` is waypoint `i`, approached from the point before it
/// (the head of `start` for the first) and looking at the point after it (the
/// head of `end` for the last).
pub open spec fn sense_at(
    start: FromLoc<Point>,
    end: FromLoc<Point>,
    waypoints: Seq<Point>,
    c: int,
) -> Option<Rotation> {
    if c == 0 {
        start.turn(
            if waypoints.len() > 0 {
                waypoints[0]
            } else {
                end.tail
            },
        )
    } else {
        let i = c - 1;
        let this = waypoints[i];
        let (bx, by) = if i == 0 {
            (start.head_x(), start.head_y())
        } else {
            (waypoints[i - 1].x as int, waypoints[i - 1].y as int)
        };
        let (ax, ay) = if i + 1 < waypoints.len() {
            (waypoints[i + 1].x as int, waypoints[i + 1].y as int)
        } else {
            (end.head_x(), end.head_y())
        };
        turn_between(bx, by, this.x as int, this.y as int, ax, ay)
    }
}

/// The turn at every candidate of a route, in order.
pub open spec fn senses(start: FromLoc<Point>, end: FromLoc<Point>, waypoints: Seq<Point>) -> Seq<
    Option<Rotation>,
> {
    Seq::new(waypoints.len() + 1, |c: int| sense_at(start, end, waypoints, c))
}

/// The candidates that call for a turn, each with its position among the
/// candidates and its turn sense. Candidates straight ahead are dropped.
pub open spec fn turning(s: Seq<Option<Rotation>>) -> Seq<(int, Rotation)>
    decreases s.len(),
{
    if s.len() == 0 {
        Seq::empty()
    } else {
        match s.last() {
            Some(rot) => turning(s.drop_last()).push((s.len() - 1, rot)),
            None => turning(s.drop_last()),
        }
    }
}

/// A stretch of the path from one turn to the next: the sense of the turn it
/// leaves, and the waypoint and sense of the turn it arrives at.
#[derive(Copy, Clone, PartialEq, Eq, Debug, Structural)]
pub struct Leg {
    pub start_rot: Rotation,
    pub end_centre: Point,
    pub end_rot: Rotation,
}

/// The legs between consecutive turning candidates.
pub open spec fn pair_up(t: Seq<(int, Rotation)>, waypoints: Seq<Point>) -> Seq<Leg> {
    Seq::new(
        if t.len() > 0 {
            (t.len() - 1) as nat
        } else {
            0
        },
        |k: int|
            Leg { start_rot: t[k].1, end_centre: waypoints[t[k + 1].0 - 1], end_rot: t[k + 1].1 },
    )
}

/// The legs of the route from `start` over `waypoints` to `end`.
pub open spec fn legs_of(start: FromLoc<Point>, end: FromLoc<Point>, waypoints: Seq<Point>) -> Seq<
    Leg,
> {
    pair_up(turning(senses(start, end, waypoints)), waypoints)
}

/// Turning candidates come in the order of the route, and each is a
/// candidate that calls for the turn it is listed with.
pub proof fn lemma_turning_sound(s: Seq<Option<Rotation>>)
    ensures
        turning(s).len() <= s.len(),
        forall|k: int|
            0 <= k < turning(s).len() ==> 0 <= (#[trigger] turning(s)[k]).0 < s.len() && s[turning(
                s,
            )[k].0] == Some(turning(s)[k].1),
        forall|j: int, k: int|
            0 <= j < k < turning(s).len() ==> (#[trigger] turning(s)[j]).0 < (#[trigger] turning(
                s,
            )[k]).0,
    decreases s.len(),
{
    if s.len() > 0 {
        lemma_turning_sound(s.drop_last());
        let t = turning(s.drop_last());
        assert forall|k: int| 0 <= k < t.len() implies s[t[k].0] == Some(t[k].1) by {
            assert(s.drop_last()[t[k].0] == s[t[k].0]);
        }
    }
}

/// Every candidate that calls for a turn is among the turning candidates.
pub proof fn lemma_turning_complete(s: Seq<Option<Rotation>>, c: int)
    requires
        0 <= c < s.len(),
        s[c] is Some,
    ensures
        exists|k: int| 0 <= k < turning(s).len() && #[trigger] turning(s)[k] == (c, s[c]->0),
    decreases s.len(),
{
    let t = turning(s.drop_last());
    if c == s.len() - 1 {
        assert(turning(s)[t.len() as int] == (c, s[c]->0));
    } else {
        lemma_turning_complete(s.drop_last(), c);
        let k = choose|k: int| 0 <= k < t.len() && #[trigger] t[k] == (c, s.drop_last()[c]->0);
        assert(turning(s)[k] == t[k]);
    }
}

/// Each leg starts with the turn sense that the leg before it ended with,
/// and ends at a waypoint that calls for a turn.
pub proof fn lemma_legs_chain(start: FromLoc<Point>, end: FromLoc<Point>, waypoints: Seq<Point>)
    ensures
        forall|k: int|
            0 <= k < legs_of(start, end, waypoints).len() - 1 ==> (#[trigger] legs_of(
                start,
                end,
                waypoints,
            )[k]).end_rot == legs_of(start, end, waypoints)[k + 1].start_rot,
        forall|k: int|
            0 <= k < legs_of(start, end, waypoints).len() ==> exists|i: int|
                0 <= i < waypoints.len() && (#[trigger] legs_of(start, end, waypoints)[k]).end_centre
                    == waypoints[i] && sense_at(start, end, waypoints, i + 1) == Some(
                    legs_of(start, end, waypoints)[k].end_rot,
                ),
{
    let s = senses(start, end, waypoints);
    let t = turning(s);
    lemma_turning_sound(s);
    let legs = legs_of(start, end, waypoints);
    assert forall|k: int| 0 <= k < legs.len() implies exists|i: int|
        0 <= i < waypoints.len() && (#[trigger] legs[k]).end_centre == waypoints[i] && sense_at(
            start,
            end,
            waypoints,
            i + 1,
        ) == Some(legs[k].end_rot) by {
        let i = t[k + 1].0 - 1;
        assert(t[k].0 < t[k + 1].0);
        assert(0 <= t[k].0);
        assert(s[t[k + 1].0] == Some(t[k + 1].1));
        assert(0 <= i < waypoints.len() && legs[k].end_centre == waypoints[i] && sense_at(
            start,
            end,
            waypoints,
            i + 1,
        ) == Some(legs[k].end_rot));
    }
}

/// The sign of `a * b - c * d` for factors of at most 34 bits, as a turn.
fn cross_turn(a: i64, b: i64, c: i64, d: i64) -> (r: Option<Rotation>)
    requires
        -0x2_0000_0000 <= a <= 0x2_0000_0000,
        -0x2_0000_0000 <= b <= 0x2_0000_0000,
        -0x2_0000_0000 <= c <= 0x2_0000_0000,
        -0x2_0000_0000 <= d <= 0x2_0000_0000,
    ensures
        r == turn_for(side_of(a * b - c * d)),
{
    assert(-0x4_0000_0000_0000_0000 <= a * b <= 0x4_0000_0000_0000_0000) by (nonlinear_arith)
        requires
            -0x2_0000_0000 <= a <= 0x2_0000_0000,
            -0x2_0000_0000 <= b <= 0x2_0000_0000,
    ;
    assert(-0x4_0000_0000_0000_0000 <= c * d <= 0x4_0000_0000_0000_0000) by (nonlinear_arith)
        requires
            -0x2_0000_0000 <= c <= 0x2_0000_0000,
            -0x2_0000_0000 <= d <= 0x2_0000_0000,
    ;
    let cross: i128 = (a as i128) * (b as i128) - (c as i128) * (d as i128);
    if cross > 0 {
        Some(Rotation::Anticlockwise)
    } else if cross == 0 {
        None
    } else {
        Some(Rotation::Clockwise)
    }
}

/// The turn at every candidate of the route from `start` over `waypoints` to
/// `end`: `None` where the route goes straight on.
pub fn turn_senses(start: FromLoc<Point>, end: FromLoc<Point>, waypoints: &Vec<Point>) -> (r: Vec<
    Option<Rotation>,
>)
    ensures
        r@ == senses(start, end, waypoints@),
{
    let n = waypoints.len();
    let mut out: Vec<Option<Rotation>> = Vec::new();
    let first = if n > 0 {
        waypoints[0]
    } else {
        end.tail
    };
    out.push(start.turning_rot(first));
    let sx: i64 = start.tail.x as i64 + start.vec.x as i64;
    let sy: i64 = start.tail.y as i64 + start.vec.y as i64;
    let ex: i64 = end.tail.x as i64 + end.vec.x as i64;
    let ey: i64 = end.tail.y as i64 + end.vec.y as i64;
    let mut i: usize = 0;
    while i < n
        invariant
            n == waypoints.len(),
            i <= n,
            sx == start.head_x(),
            sy == start.head_y(),
            ex == end.head_x(),
            ey == end.head_y(),
            out.len() == i + 1,
            forall|c: int| 0 <= c <= i ==> #[trigger] out[c] == sense_at(start, end, waypoints@, c),
        decreases n - i,
    {
        let this = waypoints[i];
        let (bx, by): (i64, i64) = if i == 0 {
            (sx, sy)
        } else {
            (waypoints[i - 1].x as i64, waypoints[i - 1].y as i64)
        };
        let (ax, ay): (i64, i64) = if i + 1 < n {
            (waypoints[i + 1].x as i64, waypoints[i + 1].y as i64)
        } else {
            (ex, ey)
        };
        out.push(
            cross_turn(
                this.x as i64 - bx,
                ay - this.y as i64,
                this.y as i64 - by,
                ax - this.x as i64,
            ),
        );
        i += 1;
    }
    proof {
        assert(out@ =~= senses(start, end, waypoints@));
    }
    out
}

/// The legs to fly from `start` over `waypoints` to `end`: one for each pair
/// of consecutive candidates that call for a turn.
pub fn flight_legs(start: FromLoc<Point>, end: FromLoc<Point>, waypoints: &Vec<Point>) -> (r: Vec<
    Leg,
>)
    ensures
        r@ == legs_of(start, end, waypoints@),
{
    let s = turn_senses(start, end, waypoints);
    let mut legs: Vec<Leg> = Vec::new();
    let mut prev: Option<Rotation> = None;
    let mut c: usize = 0;
    proof {
        assert(s@.take(0) =~= Seq::empty());
    }
    while c < s.len()
        invariant
            c <= s.len(),
            s.len() == waypoints.len() + 1,
            legs@ == pair_up(turning(s@.take(c as int)), waypoints@),
            match prev {
                Some(rot) => turning(s@.take(c as int)).len() > 0 && turning(
                    s@.take(c as int),
                ).last().1 == rot,
                None => turning(s@.take(c as int)).len() == 0,
            },
        decreases s.len() - c,
    {
        proof {
            assert(s@.take(c + 1).drop_last() =~= s@.take(c as int));
            lemma_turning_sound(s@.take(c as int));
        }
        match s[c] {
            None => {},
            Some(rot) => {
                let ghost before = turning(s@.take(c as int));
                match prev {
                    None => {},
                    Some(from) => {
                        assert(0 <= before[before.len() - 1].0 < c);
                        legs.push(Leg { start_rot: from, end_centre: waypoints[c - 1], end_rot: rot });
                    },
                }
                prev = Some(rot);
                proof {
                    let after = turning(s@.take(c + 1));
                    assert(after == before.push((c as int, rot)));
                    assert(legs@ =~= pair_up(after, waypoints@));
                }
            },
        }
        c += 1;
    }
    proof {
        assert(s@.take(s.len() as int) =~= s@);
    }
    legs
}

} // verus!

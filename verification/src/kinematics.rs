//! How long a path takes and how far along it a flight is, under bounded
//! acceleration and a speed cap. Lengths are counted in fine units (a
//! thousandth of a length unit) and times in milliseconds.

use vstd::prelude::*;

use crate::distance::{floor_sqrt, isqrt, lemma_floor_sqrt_exists};
use crate::flight_path::Path;
use crate::vector::Vector;

verus! {

/// The speed cap, in fine units per millisecond.
pub const MAX_SPEED: u64 = 15;

/// Milliseconds that it takes to gain a speed of one fine unit per
/// millisecond: the acceleration is the inverse of this.
pub const ACCEL_SPAN: u64 = 400;

/// Milliseconds that it takes to reach the speed cap from rest.
pub const RAMP: u64 = 6000;

/// Fine units covered while the speed cap is reached from rest.
pub const RAMP_LENGTH: u64 = 45000;

/// The time for a path of length `l` flown by speeding up over the first
/// half of the time and slowing down over the second.
pub open spec fn triangular_time(l: nat) -> nat {
    floor_sqrt(8 * l * ACCEL_SPAN as nat)
}

/// Whether the peak speed of the triangular profile for a path of length
/// `l` is above the cap: whether the square of its time, `8 * l` over the
/// acceleration, is above the square of twice the ramp.
pub open spec fn hits_max_speed(l: nat) -> bool {
    8 * l * ACCEL_SPAN > (2 * RAMP) * (2 * RAMP)
}

/// The peak speed is above the cap exactly on paths longer than a ramp.
pub proof fn lemma_hits_max_speed(l: nat)
    ensures
        hits_max_speed(l) <==> l > RAMP_LENGTH,
{
    assert(8 * l * ACCEL_SPAN == 3200 * l) by (nonlinear_arith)
        requires
            ACCEL_SPAN == 400,
    ;
    assert((2 * RAMP) * (2 * RAMP) == 144_000_000) by (nonlinear_arith)
        requires
            RAMP == 6000,
    ;
}

/// The time that a path of length `l` takes: that of the triangular profile,
/// or, where its peak speed is above the cap, that of the profile that
/// cruises at the cap between the two ramps.
pub open spec fn time_taken_of(l: nat) -> nat {
    if hits_max_speed(l) {
        (l / (MAX_SPEED as nat) + RAMP) as nat
    } else {
        triangular_time(l)
    }
}

/// Fine units covered after `z` milliseconds from rest under the
/// acceleration.
pub open spec fn eased(z: nat) -> nat {
    z * z / (2 * ACCEL_SPAN as nat)
}

/// The distance covered `z` milliseconds into a path of length `l`; `None`
/// after the path's time. The flight eases in, cruises where the profile has
/// a cruise, and eases out as it eased in.
pub open spec fn distance_at(l: nat, z: nat) -> Option<nat> {
    let t = time_taken_of(l);
    if z > t {
        None
    } else if hits_max_speed(l) {
        if z <= RAMP {
            Some(eased(z))
        } else if z <= t - RAMP {
            Some((RAMP_LENGTH + MAX_SPEED * (z - RAMP)) as nat)
        } else {
            Some((l - eased((t - z) as nat)) as nat)
        }
    } else {
        if z <= t / 2 {
            Some(eased(z))
        } else {
            Some((l - eased((t - z) as nat)) as nat)
        }
    }
}

/// The sum of the lengths.
pub open spec fn total_length(lengths: Seq<u64>) -> nat
    decreases lengths.len(),
{
    if lengths.len() == 0 {
        0
    } else {
        total_length(lengths.drop_last()) + lengths.last() as nat
    }
}

/// The segment that holds the point `rest` beyond the start of segment `i`,
/// with the point's distance into that segment: the first segment from `i`
/// on that is not shorter than what is left of `rest` when it is reached.
pub open spec fn walk(lengths: Seq<u64>, i: int, rest: nat) -> Option<(int, nat)>
    decreases lengths.len() - i,
{
    if i < 0 || i >= lengths.len() {
        None
    } else if lengths[i] < rest {
        walk(lengths, i + 1, (rest - lengths[i]) as nat)
    } else {
        Some((i, rest))
    }
}

/// The easing never covers more than the path is long: within the first
/// half of a triangular profile and within a ramp.
pub proof fn lemma_eased_bounds(l: nat, z: nat)
    ensures
        2 * z <= triangular_time(l) ==> eased(z) <= l,
        hits_max_speed(l) ==> l > RAMP_LENGTH,
        z <= RAMP ==> eased(z) <= RAMP_LENGTH,
{
    let n = 8 * l * ACCEL_SPAN as nat;
    let t = triangular_time(l);
    lemma_floor_sqrt_exists(n);
    if 2 * z <= t {
        assert(4 * (z * z) <= t * t) by (nonlinear_arith)
            requires
                2 * z <= t,
        ;
        assert(z * z <= 800 * l);
    }
    lemma_hits_max_speed(l);
    if z <= RAMP {
        assert(z * z <= 36000000) by (nonlinear_arith)
            requires
                z <= 6000,
        ;
        assert(z * z / 800 <= 45000);
    }
}

/// A distance is defined exactly up to the path's time, and never exceeds
/// the path's length.
pub proof fn lemma_distance_within(l: nat, z: nat)
    ensures
        distance_at(l, z) is Some <==> z <= time_taken_of(l),
        distance_at(l, z) matches Some(s) ==> s <= l,
{
    let t = time_taken_of(l);
    if z <= t {
        lemma_eased_bounds(l, z);
        lemma_eased_bounds(l, (t - z) as nat);
        if hits_max_speed(l) {
            if z > RAMP && z <= t - RAMP {
                assert(15 * (l / 15) <= l);
            }
        }
    }
}

/// Fine units covered after `z` milliseconds from rest.
fn eased_of(z: u64) -> (r: u128)
    ensures
        r == eased(z as nat),
{
    assert(z * z <= 0xffff_ffff_ffff_ffff * 0xffff_ffff_ffff_ffff) by (nonlinear_arith)
        requires
            0 <= z <= 0xffff_ffff_ffff_ffff,
    ;
    (z as u128) * (z as u128) / (2 * ACCEL_SPAN as u128)
}

/// The time of the triangular profile for a path of length `l`.
fn triangular_time_of(l: u64) -> (t: u64)
    ensures
        t == triangular_time(l as nat),
{
    assert(8 * l * ACCEL_SPAN <= 3200 * 0xffff_ffff_ffff_ffff) by (nonlinear_arith)
        requires
            0 <= l <= 0xffff_ffff_ffff_ffff,
            ACCEL_SPAN == 400,
    ;
    isqrt(8 * (l as u128) * (ACCEL_SPAN as u128))
}

/// The time, in milliseconds, that a path of `l` fine units takes.
pub fn time_taken(l: u64) -> (t: u64)
    ensures
        t == time_taken_of(l as nat),
{
    proof {
        lemma_hits_max_speed(l as nat);
    }
    if l > RAMP_LENGTH {
        l / MAX_SPEED + RAMP
    } else {
        triangular_time_of(l)
    }
}

/// The distance, in fine units, covered `z` milliseconds into a path of `l`
/// fine units; `None` after the path's time.
pub fn distance_travelled(l: u64, z: u64) -> (r: Option<u64>)
    ensures
        r is Some <==> z <= time_taken_of(l as nat),
        match r {
            Some(s) => distance_at(l as nat, z as nat) == Some(s as nat) && s <= l,
            None => distance_at(l as nat, z as nat) is None,
        },
{
    let t = time_taken(l);
    if z > t {
        return None;
    }
    proof {
        lemma_distance_within(l as nat, z as nat);
        lemma_eased_bounds(l as nat, z as nat);
        lemma_eased_bounds(l as nat, (t - z) as nat);
    }
    proof {
        lemma_hits_max_speed(l as nat);
    }
    let s: u128 = if l > RAMP_LENGTH {
        if z <= RAMP {
            eased_of(z)
        } else if z <= t - RAMP {
            RAMP_LENGTH as u128 + (MAX_SPEED as u128) * ((z - RAMP) as u128)
        } else {
            l as u128 - eased_of(t - z)
        }
    } else {
        if z <= t / 2 {
            eased_of(z)
        } else {
            l as u128 - eased_of(t - z)
        }
    };
    Some(s as u64)
}

/// The segment that holds the point `s` fine units along the path, and the
/// point's distance into that segment: the first segment that is not
/// shorter than what is left of `s` when it is reached. `None` beyond the
/// end of the path.
pub fn locate(lengths: &Vec<u64>, s: u64) -> (r: Option<(usize, u64)>)
    ensures
        match r {
            Some((i, rest)) => walk(lengths@, 0, s as nat) == Some((i as int, rest as nat)),
            None => walk(lengths@, 0, s as nat) is None,
        },
{
    let mut rest = s;
    let mut i: usize = 0;
    while i < lengths.len()
        invariant
            i <= lengths.len(),
            walk(lengths@, 0, s as nat) == walk(lengths@, i as int, rest as nat),
        decreases lengths.len() - i,
    {
        if lengths[i] < rest {
            rest = rest - lengths[i];
        } else {
            return Some((i, rest));
        }
        i += 1;
    }
    None
}

/// The walk finds the segment of every point of a path that has a segment:
/// the lengths before it and the distance into it add up to the point, and
/// every segment before it ends short of the point.
pub proof fn lemma_walk_finds(lengths: Seq<u64>, i: int, rest: nat)
    requires
        0 <= i < lengths.len(),
        rest <= total_length(lengths) - total_length(lengths.take(i)),
    ensures
        walk(lengths, i, rest) matches Some((k, into)) && i <= k < lengths.len() && into
            <= lengths[k] && total_length(lengths.take(k)) + into == total_length(lengths.take(i))
            + rest,
    decreases lengths.len() - i,
{
    lemma_total_step(lengths, i);
    if lengths[i] < rest {
        if i + 1 >= lengths.len() {
            assert(lengths.take(i + 1) =~= lengths);
        } else {
            lemma_walk_finds(lengths, i + 1, (rest - lengths[i]) as nat);
        }
    }
}

/// The lengths up to and with segment `i` add up to those before it and
/// its own.
pub proof fn lemma_total_step(lengths: Seq<u64>, i: int)
    requires
        0 <= i < lengths.len(),
    ensures
        total_length(lengths.take(i + 1)) == total_length(lengths.take(i)) + lengths[i],
        total_length(lengths.take(i + 1)) <= total_length(lengths),
    decreases lengths.len() - i,
{
    assert(lengths.take(i + 1).drop_last() =~= lengths.take(i));
    if i + 1 == lengths.len() {
        assert(lengths.take(i + 1) =~= lengths);
    } else {
        lemma_total_step(lengths, i + 1);
    }
}

/// The sum of the lengths, if it fits.
pub fn path_length(lengths: &Vec<u64>) -> (r: Option<u64>)
    ensures
        r is Some <==> total_length(lengths@) <= u64::MAX,
        r matches Some(l) ==> l == total_length(lengths@),
{
    let mut sum: u64 = 0;
    let mut i: usize = 0;
    proof {
        assert(lengths@.take(0) =~= Seq::empty());
    }
    while i < lengths.len()
        invariant
            i <= lengths.len(),
            sum == total_length(lengths@.take(i as int)),
        decreases lengths.len() - i,
    {
        proof {
            lemma_total_step(lengths@, i as int);
        }
        if lengths[i] > u64::MAX - sum {
            return None;
        }
        sum = sum + lengths[i];
        i += 1;
    }
    proof {
        assert(lengths@.take(lengths.len() as int) =~= lengths@);
    }
    Some(sum)
}

/// The point `into` fine units into segment `i` is where the flight is `z`
/// milliseconds into the path: the lengths before the segment and `into` add
/// up to the distance covered, and the segment is the first that reaches
/// that far.
pub open spec fn position_at(lengths: Seq<u64>, z: nat, i: int, into: nat) -> bool {
    let covered = (total_length(lengths.take(i)) + into) as nat;
    &&& 0 <= i < lengths.len()
    &&& into <= lengths[i]
    &&& distance_at(total_length(lengths), z) == Some(covered)
    &&& walk(lengths, 0, covered) == Some((i, into))
}

/// Where a flight is `z` milliseconds into a path with segments of the
/// given lengths: the segment, and the distance into it. There is a
/// position exactly up to the path's time, on any path that has a segment
/// and whose length fits.
pub fn pos_at_time(lengths: &Vec<u64>, z: u64) -> (r: Option<(usize, u64)>)
    ensures
        r is Some <==> lengths.len() > 0 && total_length(lengths@) <= u64::MAX && z
            <= time_taken_of(total_length(lengths@)),
        r matches Some((i, into)) ==> position_at(lengths@, z as nat, i as int, into as nat),
{
    let l = match path_length(lengths) {
        Some(l) => l,
        None => {
            return None;
        },
    };
    let s = match distance_travelled(l, z) {
        Some(s) => s,
        None => {
            return None;
        },
    };
    proof {
        if lengths.len() > 0 {
            assert(lengths@.take(0) =~= Seq::empty());
            lemma_walk_finds(lengths@, 0, s as nat);
        }
    }
    locate(lengths, s)
}

/// A point of a flight path: the segment that holds it, the position of
/// that segment in the path, and the distance into the segment in fine
/// units.
#[derive(Debug, PartialEq)]
pub struct Position<'a, T: Vector, A> {
    pub index: usize,
    pub segment: &'a Path<T, A>,
    pub into: u64,
}

/// The segments of one flight in the order in which they are flown, each
/// with its length in fine units.
#[derive(Clone, Debug, PartialEq)]
pub struct FlightPath<T: Vector, A> {
    pub segments: Vec<Path<T, A>>,
    pub lengths: Vec<u64>,
}

impl<T: Vector, A> FlightPath<T, A> {
    /// Every segment has its length.
    pub open spec fn wf(&self) -> bool {
        self.lengths.len() == self.segments.len()
    }

    /// The path of the given segments and lengths; `None` unless there is
    /// one length for each segment.
    pub fn new(segments: Vec<Path<T, A>>, lengths: Vec<u64>) -> (r: Option<Self>)
        ensures
            r is Some <==> lengths.len() == segments.len(),
            r matches Some(path) ==> path.wf() && path.segments == segments && path.lengths
                == lengths,
    {
        if lengths.len() == segments.len() {
            Some(FlightPath { segments, lengths })
        } else {
            None
        }
    }

    /// The length of the path in fine units, if it fits.
    pub fn length(&self) -> (r: Option<u64>)
        ensures
            r is Some <==> total_length(self.lengths@) <= u64::MAX,
            r matches Some(l) ==> l == total_length(self.lengths@),
    {
        path_length(&self.lengths)
    }

    /// Milliseconds from the start of the path to its end; `None` where the
    /// length of the path does not fit.
    pub fn time_taken(&self) -> (r: Option<u64>)
        ensures
            r is Some <==> total_length(self.lengths@) <= u64::MAX,
            r matches Some(t) ==> t == time_taken_of(total_length(self.lengths@)),
    {
        match path_length(&self.lengths) {
            Some(l) => Some(time_taken(l)),
            None => None,
        }
    }

    /// Where the flight is `z` milliseconds after the start. There is a
    /// position exactly up to the time that the path takes.
    pub fn pos_at_time(&self, z: u64) -> (r: Option<Position<'_, T, A>>)
        requires
            self.wf(),
        ensures
            r is Some <==> self.segments.len() > 0 && total_length(self.lengths@) <= u64::MAX
                && z <= time_taken_of(total_length(self.lengths@)),
            r matches Some(found) ==> position_at(
                self.lengths@,
                z as nat,
                found.index as int,
                found.into as nat,
            ) && *found.segment == self.segments[found.index as int],
    {
        match pos_at_time(&self.lengths, z) {
            Some((index, into)) => Some(Position { index, segment: &self.segments[index], into }),
            None => None,
        }
    }
}

/// The part of the profile that the time `z` falls in: 0 while easing in,
/// 1 while cruising, 2 while easing out.
pub open spec fn phase_at(l: nat, z: nat) -> int {
    let t = time_taken_of(l);
    if hits_max_speed(l) {
        if z <= RAMP {
            0
        } else if z <= t - RAMP {
            1
        } else {
            2
        }
    } else {
        if z <= t / 2 {
            0
        } else {
            2
        }
    }
}

/// Easing covers no less in more time.
pub proof fn lemma_eased_monotone(a: nat, b: nat)
    requires
        a <= b,
    ensures
        eased(a) <= eased(b),
{
    assert(a * a <= b * b) by (nonlinear_arith)
        requires
            a <= b,
    ;
    let x = a * a;
    let y = b * b;
    assert(2 * ACCEL_SPAN == 800);
    assert(x / 800 <= y / 800);
}

/// Within one part of the profile, the distance covered never falls as time
/// passes.
pub proof fn lemma_distance_monotone_in_phase(l: nat, earlier: nat, later: nat)
    requires
        earlier <= later <= time_taken_of(l),
        phase_at(l, earlier) == phase_at(l, later),
    ensures
        distance_at(l, earlier)->0 <= distance_at(l, later)->0,
{
    let t = time_taken_of(l);
    lemma_eased_monotone(earlier, later);
    lemma_eased_monotone((t - later) as nat, (t - earlier) as nat);
    lemma_distance_within(l, earlier);
    lemma_distance_within(l, later);
    lemma_eased_bounds(l, (t - earlier) as nat);
    lemma_eased_bounds(l, (t - later) as nat);
}

/// On a path long enough for both ramps, the distance covered never falls
/// as time passes, from the start to the end of the flight.
pub proof fn lemma_distance_monotone(l: nat, earlier: nat, later: nat)
    requires
        l >= 2 * RAMP_LENGTH,
        earlier <= later <= time_taken_of(l),
    ensures
        distance_at(l, earlier)->0 <= distance_at(l, later)->0,
{
    let t = time_taken_of(l);
    lemma_floor_sqrt_exists(8 * l * ACCEL_SPAN as nat);
    lemma_hits_max_speed(l);
    if phase_at(l, earlier) == phase_at(l, later) {
        lemma_distance_monotone_in_phase(l, earlier, later);
    } else {
        lemma_eased_bounds(l, earlier);
        lemma_eased_bounds(l, (t - later) as nat);
        assert(15 * (l / 15) <= l);
    }
}

/// A path that has a length takes time.
pub proof fn lemma_time_positive(l: nat)
    requires
        l > 0,
    ensures
        time_taken_of(l) > 0,
{
    lemma_floor_sqrt_exists(8 * l * ACCEL_SPAN as nat);
    let tri = triangular_time(l);
    if tri == 0 {
        assert((tri + 1) * (tri + 1) == 1) by (nonlinear_arith)
            requires
                tri == 0,
        ;
    }
}

} // verus!

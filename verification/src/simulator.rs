//! The registry of simulated flights and of the batches of changes that
//! consumers replay: what is purged, what is admitted, and which change is
//! reported of each flight at a given time. All times are in milliseconds.

use std::sync::Arc;

use vstd::prelude::*;
use vstd::std_specs::ops::SubSpec;

use crate::kinematics::{lemma_time_positive, time_taken_of, total_length, FlightPath};
use crate::random::{fresh_id, id_version, share};
use crate::vector::{FromLoc, Vector};

verus! {

/// Milliseconds for which a batch of changes is kept after its time.
pub const RETENTION: u64 = 15_000;

/// Milliseconds for which a flight is kept after its arrival.
pub const GRACE: u64 = 15_000;

/// Milliseconds from the creation of a flight to its departure.
pub const DEPART_DELAY: u64 = 30_000;

/// Milliseconds after its arrival during which a flight is reported as removed
/// without asking for its position.
pub const REMOVE_WINDOW: u64 = 5_000;

/// Milliseconds between the two positions that a movement vector joins.
pub const LOOKAHEAD: u64 = 5_000;

/// Milliseconds between the times for which one tick reports changes.
pub const STATUS_STEP: u64 = 5_000;

/// Number of times for which one tick reports changes.
pub const STATUS_COUNT: u64 = 6;

/// What is shown of a flight.
#[derive(Clone, Debug, PartialEq, Eq)]
pub struct ActiveFlightInfo {
    pub airline_name: String,
    pub aircraft: String,
    pub registry_code: String,
    pub from: String,
    pub to: String,
    pub waypoints: Vec<usize>,
}

/// A simulated flight: an identifier, the path it flies, the times (in
/// milliseconds) at which it departs and arrives, and what is shown of it.
#[derive(Clone, Debug, PartialEq, Eq)]
pub struct ActiveFlight<R> {
    pub id: u128,
    pub route: R,
    pub depart_time: u64,
    pub arrival_time: u64,
    pub info: ActiveFlightInfo,
}

/// Where a flight stands in its life at a given time.
#[derive(Copy, Clone, PartialEq, Eq, Debug, Structural)]
pub enum FlightState {
    Scheduled,
    Airborne,
    Arrived,
    Purged,
}

impl FlightState {
    /// Position of the state in the order in which a flight passes through
    /// the states.
    pub open spec fn stage(self) -> int {
        match self {
            FlightState::Scheduled => 0,
            FlightState::Airborne => 1,
            FlightState::Arrived => 2,
            FlightState::Purged => 3,
        }
    }
}

impl<R> ActiveFlight<R> {
    /// The state at time `now`: scheduled before departure, airborne until
    /// arrival, arrived for the grace period after it, purged from then on.
    pub open spec fn spec_state_at(&self, now: u64) -> FlightState {
        if now < self.depart_time {
            FlightState::Scheduled
        } else if now <= self.arrival_time {
            FlightState::Airborne
        } else if now < self.arrival_time + GRACE {
            FlightState::Arrived
        } else {
            FlightState::Purged
        }
    }

    /// The state at time `now`.
    #[verifier::when_used_as_spec(spec_state_at)]
    pub fn state_at(&self, now: u64) -> (s: FlightState)
        ensures
            s == self.spec_state_at(now),
    {
        if now < self.depart_time {
            FlightState::Scheduled
        } else if now <= self.arrival_time {
            FlightState::Airborne
        } else if now - self.arrival_time < GRACE {
            FlightState::Arrived
        } else {
            FlightState::Purged
        }
    }

    /// A flight never falls back to an earlier state as time passes.
    pub proof fn lemma_state_advances(&self, earlier: u64, later: u64)
        requires
            earlier <= later,
        ensures
            self.spec_state_at(earlier).stage() <= self.spec_state_at(later).stage(),
    {
    }

    /// A flight that arrives no earlier than it departs is purged exactly
    /// when the purge no longer keeps it.
    pub proof fn lemma_purged_when_not_kept(&self, now: u64)
        requires
            self.depart_time <= self.arrival_time,
        ensures
            self.spec_state_at(now) == FlightState::Purged <==> !(now < self.arrival_time + GRACE),
    {
    }

    /// A flight created at `now` to fly `route` for `duration` milliseconds:
    /// it departs after the fixed delay and arrives `duration` later.
    /// Its identifier is drawn at random, among the identifiers of version
    /// 4.
    pub fn schedule(route: R, now: u64, duration: u64, info: ActiveFlightInfo) -> (f: Self)
        requires
            now + DEPART_DELAY + duration <= u64::MAX,
        ensures
            f.route == route,
            f.info == info,
            f.depart_time == now + DEPART_DELAY,
            f.arrival_time == f.depart_time + duration,
            f.spec_state_at(now) == FlightState::Scheduled,
            id_version(f.id) == 4,
    {
        let depart_time = now + DEPART_DELAY;
        ActiveFlight { id: fresh_id(), route, depart_time, arrival_time: depart_time + duration, info }
    }

    /// Milliseconds that the flight has been under way at time `key`; `None`
    /// before its departure.
    pub fn elapsed_at(&self, key: u64) -> (r: Option<u64>)
        ensures
            r == if key < self.depart_time {
                None
            } else {
                Some((key - self.depart_time) as u64)
            },
    {
        if key < self.depart_time {
            None
        } else {
            Some(key - self.depart_time)
        }
    }
}

impl<T: Vector, A> ActiveFlight<FlightPath<T, A>> {
    /// A flight created at `now` to fly the path `route`: it departs after
    /// the fixed delay and arrives after the time that the path takes, so
    /// after its departure on any path that has a length. There is no flight
    /// where the length of the path or the time of arrival does not fit.
    pub fn of_path(route: FlightPath<T, A>, now: u64, info: ActiveFlightInfo) -> (r: Option<Self>)
        ensures
            r is Some <==> total_length(route.lengths@) <= u64::MAX && now + DEPART_DELAY
                + time_taken_of(total_length(route.lengths@)) <= u64::MAX,
            r matches Some(f) ==> {
                &&& f.route == route
                &&& f.info == info
                &&& f.depart_time == now + DEPART_DELAY
                &&& f.arrival_time == f.depart_time + time_taken_of(total_length(route.lengths@))
                &&& total_length(route.lengths@) > 0 ==> f.depart_time < f.arrival_time
                &&& id_version(f.id) == 4
            },
    {
        let duration = match route.time_taken() {
            Some(t) => t,
            None => {
                return None;
            },
        };
        if now > u64::MAX - DEPART_DELAY || duration > u64::MAX - DEPART_DELAY - now {
            return None;
        }
        proof {
            if total_length(route.lengths@) > 0 {
                lemma_time_positive(total_length(route.lengths@));
            }
        }
        Some(ActiveFlight::schedule(route, now, duration, info))
    }
}

/// The times into its path at which a movement of a flight asks for
/// positions: `here` for where the flight is, `ahead` a lookahead later for
/// where the movement leads, and `last`, the end of the path, for where it
/// leads if there is no position ahead. A time that does not fit is left
/// out.
#[derive(Copy, Clone, Debug, PartialEq, Eq)]
pub struct SampleTimes {
    pub here: u64,
    pub ahead: Option<u64>,
    pub last: Option<u64>,
}

impl<T: Vector, A> ActiveFlight<FlightPath<T, A>> {
    /// The times into the path at which the movement at time `key` asks for
    /// positions; `None` before the departure.
    pub fn sample_times(&self, key: u64) -> (r: Option<SampleTimes>)
        ensures
            r is Some <==> key >= self.depart_time,
            r matches Some(t) ==> {
                &&& t.here == key - self.depart_time
                &&& t.ahead == if t.here + LOOKAHEAD <= u64::MAX {
                    Some((t.here + LOOKAHEAD) as u64)
                } else {
                    None
                }
                &&& t.last == if total_length(self.route.lengths@) <= u64::MAX {
                    Some(time_taken_of(total_length(self.route.lengths@)) as u64)
                } else {
                    None
                }
            },
    {
        if key < self.depart_time {
            return None;
        }
        let here = key - self.depart_time;
        let ahead = if here <= u64::MAX - LOOKAHEAD {
            Some(here + LOOKAHEAD)
        } else {
            None
        };
        Some(SampleTimes { here, ahead, last: self.route.time_taken() })
    }
}

/// The attempts that gave a flight, in order.
pub open spec fn successes<X>(attempts: Seq<Option<X>>) -> Seq<X>
    decreases attempts.len(),
{
    if attempts.len() == 0 {
        Seq::empty()
    } else {
        match attempts.last() {
            Some(x) => successes(attempts.drop_last()).push(x),
            None => successes(attempts.drop_last()),
        }
    }
}

/// The flights that a tick starts, from the outcomes of its attempts: an
/// attempt that gave no flight is passed over, and the others keep their
/// order.
pub fn start_flights<R>(attempts: &Vec<Option<Arc<ActiveFlight<R>>>>) -> (r: Vec<
    Arc<ActiveFlight<R>>,
>)
    ensures
        r@ == successes(attempts@),
{
    let mut started: Vec<Arc<ActiveFlight<R>>> = Vec::new();
    let mut i: usize = 0;
    proof {
        assert(attempts@.take(0) =~= Seq::empty());
    }
    while i < attempts.len()
        invariant
            i <= attempts.len(),
            started@ == successes(attempts@.take(i as int)),
        decreases attempts.len() - i,
    {
        proof {
            assert(attempts@.take(i + 1).drop_last() =~= attempts@.take(i as int));
        }
        match &attempts[i] {
            Some(flight) => {
                started.push(share(flight));
            },
            None => {},
        }
        i += 1;
    }
    proof {
        assert(attempts@.take(attempts.len() as int) =~= attempts@);
    }
    started
}

/// A change of the simulator's state that a consumer has to apply.
#[derive(Clone, Debug, PartialEq, Eq)]
pub enum FlightAction<R, T: Vector> {
    Add { flight: Arc<ActiveFlight<R>>, vec: FromLoc<T> },
    Remove { id: u128 },
    Move { id: u128, vec: FromLoc<T> },
}

/// The changes that hold at one time.
#[derive(Clone, Debug, PartialEq, Eq)]
pub struct ActionBatch<R, T: Vector> {
    pub time: u64,
    pub actions: Vec<FlightAction<R, T>>,
}

/// The flights that are under simulation and the batches of changes that are
/// on offer.
#[derive(Debug, PartialEq, Eq)]
pub struct Simulator<R, T: Vector> {
    pub flights: Vec<Arc<ActiveFlight<R>>>,
    pub batches: Vec<ActionBatch<R, T>>,
}

/// The movement of a flight at time `key` from the positions that its path
/// gives: `here` at `key`, `ahead` a short time later, and `last` at the end
/// of the path, each `None` where the path gives no position. There is
/// no movement before departure or without a position at `key`; the vector
/// runs to `ahead`, or to `last` where `ahead` is missing.
pub fn calculate_vec<R, T: Vector>(
    f: &ActiveFlight<R>,
    key: u64,
    here: Option<T>,
    ahead: Option<T>,
    last: Option<T>,
) -> (r: Option<FromLoc<T>>)
    requires
        here is Some && ahead is Some ==> ahead->0.sub_req(here->0),
        here is Some && ahead is None && last is Some ==> last->0.sub_req(here->0),
    ensures
        r is Some <==> key >= f.depart_time && here is Some && (ahead is Some || last is Some),
        r matches Some(fl) ==> {
            let target = if ahead is Some {
                ahead->0
            } else {
                last->0
            };
            &&& fl.tail == here->0
            &&& T::obeys_sub_spec() ==> fl.vec == target.sub_spec(here->0)
        },
{
    if key < f.depart_time {
        return None;
    }
    let from = match here {
        Some(p) => p,
        None => {
            return None;
        },
    };
    let to = match ahead {
        Some(p) => p,
        None => match last {
            Some(p) => p,
            None => {
                return None;
            },
        },
    };
    Some(FromLoc::new(from, to))
}

/// Keeps of `v` the items that `keep` accepts, in their order.
fn retain<X, F: Fn(&X) -> bool>(v: &mut Vec<X>, keep: F, Ghost(pred): Ghost<spec_fn(X) -> bool>)
    requires
        forall|x: X| call_requires(keep, (&x,)),
        forall|x: X, b: bool| call_ensures(keep, (&x,), b) ==> b == pred(x),
    ensures
        final(v)@ == old(v)@.filter(pred),
{
    let ghost orig = v@;
    let ghost mut p: int = 0;
    let mut i: usize = 0;
    proof {
        assert(orig.take(0) =~= Seq::empty());
        assert(orig.skip(0) =~= orig);
        assert(Seq::<X>::empty().filter(pred) =~= Seq::empty()) by {
            reveal(Seq::filter);
        }
    }
    while i < v.len()
        invariant
            0 <= p <= orig.len(),
            i == orig.take(p).filter(pred).len(),
            v@ == orig.take(p).filter(pred) + orig.skip(p),
            forall|x: X| call_requires(keep, (&x,)),
            forall|x: X, b: bool| call_ensures(keep, (&x,), b) ==> b == pred(x),
        decreases orig.len() - p,
    {
        proof {
            assert(p < orig.len());
            assert(v@[i as int] == orig[p]);
            assert(orig.take(p + 1) =~= orig.take(p).push(orig[p]));
            orig.take(p).lemma_filter_push(orig[p], pred);
        }
        if keep(&v[i]) {
            proof {
                assert(orig.take(p).filter(pred).push(orig[p]) + orig.skip(p + 1) =~= orig.take(
                    p,
                ).filter(pred) + orig.skip(p));
            }
            i += 1;
        } else {
            v.remove(i);
            proof {
                assert(v@ =~= orig.take(p).filter(pred) + orig.skip(p + 1));
            }
        }
        proof {
            p = p + 1;
        }
    }
    proof {
        assert(p == orig.len());
        assert(orig.take(p) =~= orig);
        assert(v@ =~= orig.filter(pred));
    }
}

/// Whether a flight is still kept at time `now`: until the grace period
/// after its arrival is over.
pub open spec fn flight_kept<R>(now: u64) -> spec_fn(Arc<ActiveFlight<R>>) -> bool {
    |f: Arc<ActiveFlight<R>>| now < f.arrival_time + GRACE
}

/// Whether a batch is still kept at time `now`: until the retention window
/// after its time is over.
pub open spec fn batch_kept<R, T: Vector>(now: u64) -> spec_fn(ActionBatch<R, T>) -> bool {
    |b: ActionBatch<R, T>| now < b.time + RETENTION
}

/// Whether a batch holds for another time than `key`.
pub open spec fn batch_elsewhere<R, T: Vector>(key: u64) -> spec_fn(ActionBatch<R, T>) -> bool {
    |b: ActionBatch<R, T>| b.time != key
}

/// The times of the batches, in order.
pub open spec fn batch_times<R, T: Vector>(batches: Seq<ActionBatch<R, T>>) -> Seq<u64> {
    Seq::new(batches.len(), |i: int| batches[i].time)
}

/// Dropping batches leaves no two batches for the same time where there
/// were none, and adds no time.
pub proof fn lemma_filter_keeps_times_apart<R, T: Vector>(
    batches: Seq<ActionBatch<R, T>>,
    pred: spec_fn(ActionBatch<R, T>) -> bool,
)
    requires
        batch_times(batches).no_duplicates(),
    ensures
        batch_times(batches.filter(pred)).no_duplicates(),
        forall|i: int|
            0 <= i < batches.filter(pred).len() ==> pred(#[trigger] batches.filter(pred)[i])
                && batch_times(batches).contains(batches.filter(pred)[i].time),
    decreases batches.len(),
{
    reveal(Seq::filter);
    if batches.len() > 0 {
        let front = batches.drop_last();
        assert forall|i: int, j: int|
            0 <= i < front.len() && 0 <= j < front.len() && i != j implies batch_times(front)[i]
            != batch_times(front)[j] by {
            assert(batch_times(batches)[i] != batch_times(batches)[j]);
        }
        lemma_filter_keeps_times_apart(front, pred);
        let kept = front.filter(pred);
        let all = batches.filter(pred);
        assert forall|i: int| 0 <= i < all.len() implies pred(#[trigger] all[i]) && batch_times(
            batches,
        ).contains(all[i].time) by {
            if i < kept.len() {
                let k = choose|k: int|
                    0 <= k < front.len() && batch_times(front)[k] == kept[i].time;
                assert(batch_times(batches)[k] == kept[i].time);
            } else {
                assert(batch_times(batches)[batches.len() - 1] == all[i].time);
            }
        }
        assert forall|i: int, j: int|
            0 <= i < all.len() && 0 <= j < all.len() && i != j implies batch_times(all)[i]
            != batch_times(all)[j] by {
            if i < kept.len() && j < kept.len() {
                assert(batch_times(kept)[i] != batch_times(kept)[j]);
            } else {
                let low = if i < j {
                    i
                } else {
                    j
                };
                let k = choose|k: int|
                    0 <= k < front.len() && batch_times(front)[k] == kept[low].time;
                assert(batch_times(batches)[k] != batch_times(batches)[batches.len() - 1]);
            }
        }
    }
}

/// The change to report of a flight at time `key`, given its movement `vec`
/// at that time if it has one: removal within the window after its arrival
/// or without a movement, else the movement.
pub open spec fn action_for<R, T: Vector>(
    f: Arc<ActiveFlight<R>>,
    key: u64,
    vec: Option<FromLoc<T>>,
) -> FlightAction<R, T> {
    if f.arrival_time <= key < f.arrival_time + REMOVE_WINDOW {
        FlightAction::Remove { id: f.id }
    } else {
        match vec {
            Some(v) => FlightAction::Move { id: f.id, vec: v },
            None => FlightAction::Remove { id: f.id },
        }
    }
}

/// The new flights that have a movement, in order.
pub open spec fn admitted<R, T: Vector>(
    new_flights: Seq<Arc<ActiveFlight<R>>>,
    new_vecs: Seq<Option<FromLoc<T>>>,
) -> Seq<Arc<ActiveFlight<R>>>
    decreases new_flights.len(),
{
    if new_flights.len() == 0 || new_vecs.len() == 0 {
        Seq::empty()
    } else {
        let rest = admitted(new_flights.drop_last(), new_vecs.drop_last());
        match new_vecs.last() {
            Some(_) => rest.push(new_flights.last()),
            None => rest,
        }
    }
}

/// The movements of the new flights that have one, in order.
pub open spec fn admitted_vecs<T: Vector>(new_vecs: Seq<Option<FromLoc<T>>>) -> Seq<
    Option<FromLoc<T>>,
> {
    new_vecs.filter(|v: Option<FromLoc<T>>| v is Some)
}

/// The additions to report for the new flights: one for each that has a
/// movement, in order.
pub open spec fn additions<R, T: Vector>(
    new_flights: Seq<Arc<ActiveFlight<R>>>,
    new_vecs: Seq<Option<FromLoc<T>>>,
) -> Seq<FlightAction<R, T>>
    decreases new_flights.len(),
{
    if new_flights.len() == 0 || new_vecs.len() == 0 {
        Seq::empty()
    } else {
        let rest = additions(new_flights.drop_last(), new_vecs.drop_last());
        match new_vecs.last() {
            Some(v) => rest.push(FlightAction::Add { flight: new_flights.last(), vec: v }),
            None => rest,
        }
    }
}

/// The change to report of each flight at time `key`, in order.
pub open spec fn statuses<R, T: Vector>(
    flights: Seq<Arc<ActiveFlight<R>>>,
    key: u64,
    vecs: Seq<Option<FromLoc<T>>>,
) -> Seq<FlightAction<R, T>> {
    Seq::new(flights.len(), |i: int| action_for(flights[i], key, vecs[i]))
}

/// The times for which the tick at `now` reports changes: from the departure
/// delay on, one for each step.
pub open spec fn status_key(now: u64, k: int) -> int {
    now + DEPART_DELAY + k * STATUS_STEP
}

/// The times for which the tick at `now` reports changes, earliest first.
pub fn status_keys(now: u64) -> (keys: Vec<u64>)
    requires
        now + DEPART_DELAY + STATUS_COUNT * STATUS_STEP <= u64::MAX,
    ensures
        keys.len() == STATUS_COUNT,
        forall|k: int| 0 <= k < STATUS_COUNT ==> #[trigger] keys[k] == status_key(now, k),
{
    let mut keys: Vec<u64> = Vec::new();
    let mut k: u64 = 0;
    while k < STATUS_COUNT
        invariant
            k <= STATUS_COUNT,
            now + DEPART_DELAY + STATUS_COUNT * STATUS_STEP <= u64::MAX,
            keys.len() == k,
            forall|j: int| 0 <= j < k ==> #[trigger] keys[j] == status_key(now, j),
        decreases STATUS_COUNT - k,
    {
        keys.push(now + DEPART_DELAY + k * STATUS_STEP);
        k += 1;
    }
    keys
}

/// The time `time` is one of the first `k` times of the tick at `now`.
pub open spec fn reported_before(now: u64, k: int, time: u64) -> bool {
    exists|j: int| 0 <= j < k && time == #[trigger] status_key(now, j)
}

/// Whether a batch holds for none of the first `k` times of the tick at
/// `now`.
pub open spec fn batch_outside_tick<R, T: Vector>(now: u64, k: int) -> spec_fn(
    ActionBatch<R, T>,
) -> bool {
    |b: ActionBatch<R, T>| !reported_before(now, k, b.time)
}

/// The entries of `row` at the positions at which `first` holds a movement,
/// in order: the movements, at a later time, of the new flights that were
/// admitted at the first.
pub open spec fn picked<T: Vector>(
    first: Seq<Option<FromLoc<T>>>,
    row: Seq<Option<FromLoc<T>>>,
) -> Seq<Option<FromLoc<T>>>
    decreases first.len(),
{
    if first.len() == 0 || row.len() == 0 {
        Seq::empty()
    } else {
        let rest = picked(first.drop_last(), row.drop_last());
        if first.last() is Some {
            rest.push(row.last())
        } else {
            rest
        }
    }
}

/// The movements of the flights of the registry at the `k`-th time of a
/// tick: those of the flights registered before, then those of the flights
/// admitted at the first time.
pub open spec fn tick_moves<T: Vector>(
    new_moves: Seq<Vec<Option<FromLoc<T>>>>,
    old_moves: Seq<Vec<Option<FromLoc<T>>>>,
    k: int,
) -> Seq<Option<FromLoc<T>>> {
    old_moves[k]@ + picked(new_moves[0]@, new_moves[k]@)
}

/// The changes that hold at the `k`-th time of the tick at `now`: at the
/// first time the additions of the new flights, and at every time one change
/// of each flight of the registry.
pub open spec fn tick_actions<R, T: Vector>(
    flights: Seq<Arc<ActiveFlight<R>>>,
    new_flights: Seq<Arc<ActiveFlight<R>>>,
    new_moves: Seq<Vec<Option<FromLoc<T>>>>,
    old_moves: Seq<Vec<Option<FromLoc<T>>>>,
    now: u64,
    k: int,
) -> Seq<FlightAction<R, T>> {
    let reports = statuses(flights, status_key(now, k) as u64, tick_moves(new_moves, old_moves, k));
    if k == 0 {
        additions(new_flights, new_moves[0]@) + reports
    } else {
        reports
    }
}

/// As many movements are picked as flights were admitted, and picking from
/// the first row itself gives the movements of the admitted flights.
pub proof fn lemma_picked<R, T: Vector>(
    new_flights: Seq<Arc<ActiveFlight<R>>>,
    first: Seq<Option<FromLoc<T>>>,
    row: Seq<Option<FromLoc<T>>>,
)
    requires
        new_flights.len() == first.len(),
        row.len() == first.len(),
    ensures
        picked(first, row).len() == admitted(new_flights, first).len(),
        picked(first, first) == admitted_vecs(first),
    decreases first.len(),
{
    let is_some = |v: Option<FromLoc<T>>| v is Some;
    if first.len() == 0 {
        assert(first.filter(is_some) =~= Seq::empty()) by {
            reveal(Seq::filter);
        }
    } else {
        lemma_picked(new_flights.drop_last(), first.drop_last(), row.drop_last());
        lemma_picked(new_flights.drop_last(), first.drop_last(), first.drop_last());
        assert(first =~= first.drop_last().push(first.last()));
        first.drop_last().lemma_filter_push(first.last(), is_some);
    }
}

/// Filtering by one condition and then by another is filtering by both.
pub proof fn lemma_filter_twice<X>(
    s: Seq<X>,
    p: spec_fn(X) -> bool,
    q: spec_fn(X) -> bool,
    both: spec_fn(X) -> bool,
)
    requires
        forall|x: X| #[trigger] both(x) == (p(x) && q(x)),
    ensures
        s.filter(p).filter(q) == s.filter(both),
    decreases s.len(),
{
    reveal(Seq::filter);
    if s.len() > 0 {
        lemma_filter_twice(s.drop_last(), p, q, both);
        if p(s.last()) {
            s.drop_last().filter(p).lemma_filter_push(s.last(), q);
        }
    }
}

/// Filtering by a condition that every item meets changes nothing.
pub proof fn lemma_filter_all<X>(s: Seq<X>, p: spec_fn(X) -> bool)
    requires
        forall|i: int| 0 <= i < s.len() ==> p(#[trigger] s[i]),
    ensures
        s.filter(p) == s,
    decreases s.len(),
{
    reveal(Seq::filter);
    if s.len() > 0 {
        lemma_filter_all(s.drop_last(), p);
        assert(s.drop_last().push(s.last()) =~= s);
    }
}

/// The movements of the registry at a later time of a tick: those of the
/// flights registered before, then the entries of `row` at the positions at
/// which `first` holds a movement.
fn later_moves<T: Vector>(
    old_row: &Vec<Option<FromLoc<T>>>,
    first: &Vec<Option<FromLoc<T>>>,
    row: &Vec<Option<FromLoc<T>>>,
) -> (r: Vec<Option<FromLoc<T>>>)
    requires
        first.len() == row.len(),
    ensures
        r@ == old_row@ + picked(first@, row@),
{
    let mut out: Vec<Option<FromLoc<T>>> = Vec::new();
    let mut j: usize = 0;
    while j < old_row.len()
        invariant
            j <= old_row.len(),
            out@ == old_row@.take(j as int),
        decreases old_row.len() - j,
    {
        out.push(old_row[j]);
        proof {
            assert(old_row@.take(j + 1) =~= old_row@.take(j as int).push(old_row@[j as int]));
        }
        j += 1;
    }
    let mut i: usize = 0;
    proof {
        assert(old_row@.take(old_row.len() as int) =~= old_row@);
        assert(first@.take(0) =~= Seq::empty());
        assert(out@ =~= old_row@ + picked(first@.take(0), row@.take(0)));
    }
    while i < first.len()
        invariant
            i <= first.len(),
            first.len() == row.len(),
            out@ == old_row@ + picked(first@.take(i as int), row@.take(i as int)),
        decreases first.len() - i,
    {
        proof {
            assert(first@.take(i + 1).drop_last() =~= first@.take(i as int));
            assert(row@.take(i + 1).drop_last() =~= row@.take(i as int));
        }
        if first[i].is_some() {
            out.push(row[i]);
            proof {
                assert(out@ =~= old_row@ + picked(first@.take(i + 1), row@.take(i + 1)));
            }
        }
        i += 1;
    }
    proof {
        assert(first@.take(first.len() as int) =~= first@);
        assert(row@.take(row.len() as int) =~= row@);
    }
    out
}

impl<R, T: Vector> Simulator<R, T> {
    /// A simulator without flights and without batches.
    pub fn new() -> (s: Self)
        ensures
            s.flights@.len() == 0,
            s.batches@.len() == 0,
            s.wf(),
    {
        Simulator { flights: Vec::new(), batches: Vec::new() }
    }

    /// No two batches hold for the same time.
    pub open spec fn wf(&self) -> bool {
        batch_times(self.batches@).no_duplicates()
    }

    /// Drops what is out of date at time `now`: the batches whose retention
    /// window is over and the flights whose grace period is over. What stays
    /// keeps its order.
    pub fn purge_outdated_data(&mut self, now: u64)
        ensures
            final(self).batches@ == old(self).batches@.filter(batch_kept::<R, T>(now)),
            final(self).flights@ == old(self).flights@.filter(flight_kept::<R>(now)),
            old(self).wf() ==> final(self).wf(),
    {
        proof {
            if self.wf() {
                lemma_filter_keeps_times_apart(self.batches@, batch_kept::<R, T>(now));
            }
        }
        let keep_batch = |b: &ActionBatch<R, T>| -> (keep: bool)
            ensures
                keep == batch_kept::<R, T>(now)(*b),
            { now - b.time.min(now) < RETENTION };
        retain(&mut self.batches, keep_batch, Ghost(batch_kept::<R, T>(now)));
        let keep_flight = |f: &Arc<ActiveFlight<R>>| -> (keep: bool)
            ensures
                keep == flight_kept::<R>(now)(*f),
            { now - f.arrival_time.min(now) < GRACE };
        retain(&mut self.flights, keep_flight, Ghost(flight_kept::<R>(now)));
    }

    /// Puts the batch of `actions` on offer for time `key`, in place of any
    /// batch that held for that time.
    pub fn record(&mut self, key: u64, actions: Vec<FlightAction<R, T>>)
        ensures
            final(self).flights@ == old(self).flights@,
            final(self).batches@ == old(self).batches@.filter(batch_elsewhere::<R, T>(key)).push(
                ActionBatch { time: key, actions },
            ),
            old(self).wf() ==> final(self).wf(),
    {
        proof {
            if self.wf() {
                lemma_filter_keeps_times_apart(self.batches@, batch_elsewhere::<R, T>(key));
                let kept = self.batches@.filter(batch_elsewhere::<R, T>(key));
                let all = kept.push(ActionBatch { time: key, actions });
                assert forall|i: int, j: int|
                    0 <= i < all.len() && 0 <= j < all.len() && i != j implies batch_times(all)[i]
                    != batch_times(all)[j] by {
                    if i < kept.len() && j < kept.len() {
                        assert(batch_times(kept)[i] != batch_times(kept)[j]);
                    }
                }
            }
        }
        let elsewhere = |b: &ActionBatch<R, T>| -> (keep: bool)
            ensures
                keep == batch_elsewhere::<R, T>(key)(*b),
            { b.time != key };
        retain(&mut self.batches, elsewhere, Ghost(batch_elsewhere::<R, T>(key)));
        self.batches.push(ActionBatch { time: key, actions });
    }

    /// Reports the changes that hold at time `key`.
    ///
    /// Each new flight that has a movement at `key` (`new_vecs`, one entry
    /// for each of `new_flights`) joins the registry and is reported as
    /// added; one without a movement is passed over. Then one change is
    /// reported of every flight of the registry, the newly joined ones last:
    /// its removal or its movement, where `vecs` holds the movements of the
    /// flights that were registered before. The batch of these changes
    /// replaces any batch that held for `key`.
    pub fn calculate_statuses(
        &mut self,
        key: u64,
        new_flights: &Vec<Arc<ActiveFlight<R>>>,
        new_vecs: &Vec<Option<FromLoc<T>>>,
        vecs: &Vec<Option<FromLoc<T>>>,
    )
        requires
            new_vecs.len() == new_flights.len(),
            vecs.len() == old(self).flights.len(),
        ensures
            final(self).flights@ == old(self).flights@ + admitted(new_flights@, new_vecs@),
            final(self).batches@.len() > 0,
            final(self).batches@.drop_last() == old(self).batches@.filter(
                batch_elsewhere::<R, T>(key),
            ),
            final(self).batches@.last().time == key,
            final(self).batches@.last().actions@ == additions(new_flights@, new_vecs@) + statuses(
                final(self).flights@,
                key,
                vecs@ + admitted_vecs(new_vecs@),
            ),
            old(self).wf() ==> final(self).wf(),
    {
        let ghost is_some = |v: Option<FromLoc<T>>| v is Some;
        let mut actions: Vec<FlightAction<R, T>> = Vec::new();
        let mut all_vecs: Vec<Option<FromLoc<T>>> = Vec::new();
        let mut j: usize = 0;
        while j < vecs.len()
            invariant
                j <= vecs.len(),
                all_vecs@ == vecs@.take(j as int),
            decreases vecs.len() - j,
        {
            all_vecs.push(vecs[j]);
            proof {
                assert(vecs@.take(j + 1) =~= vecs@.take(j as int).push(vecs@[j as int]));
            }
            j += 1;
        }
        proof {
            assert(vecs@.take(vecs.len() as int) =~= vecs@);
            assert(new_flights@.take(0) =~= Seq::empty());
            assert(new_vecs@.take(0) =~= Seq::empty());
            assert(Seq::<Option<FromLoc<T>>>::empty().filter(is_some) =~= Seq::empty()) by {
                reveal(Seq::filter);
            }
            assert(self.flights@ =~= old(self).flights@ + Seq::empty());
            assert(all_vecs@ =~= vecs@ + Seq::empty());
        }
        let mut i: usize = 0;
        while i < new_flights.len()
            invariant
                i <= new_flights.len(),
                new_vecs.len() == new_flights.len(),
                is_some == (|v: Option<FromLoc<T>>| v is Some),
                self.batches@ == old(self).batches@,
                self.flights@ == old(self).flights@ + admitted(
                    new_flights@.take(i as int),
                    new_vecs@.take(i as int),
                ),
                actions@ == additions(new_flights@.take(i as int), new_vecs@.take(i as int)),
                all_vecs@ == vecs@ + new_vecs@.take(i as int).filter(is_some),
                admitted(new_flights@.take(i as int), new_vecs@.take(i as int)).len() <= i,
            decreases new_flights.len() - i,
        {
            proof {
                assert(new_flights@.take(i + 1).drop_last() =~= new_flights@.take(i as int));
                assert(new_vecs@.take(i + 1).drop_last() =~= new_vecs@.take(i as int));
                assert(new_vecs@.take(i + 1) =~= new_vecs@.take(i as int).push(new_vecs@[i as int]));
                new_vecs@.take(i as int).lemma_filter_push(new_vecs@[i as int], is_some);
            }
            match new_vecs[i] {
                None => {},
                Some(v) => {
                    self.flights.push(share(&new_flights[i]));
                    actions.push(FlightAction::Add { flight: share(&new_flights[i]), vec: v });
                    all_vecs.push(Some(v));
                    proof {
                        assert(self.flights@ =~= old(self).flights@ + admitted(
                            new_flights@.take(i + 1),
                            new_vecs@.take(i + 1),
                        ));
                        assert(all_vecs@ =~= vecs@ + new_vecs@.take(i + 1).filter(is_some));
                    }
                },
            }
            i += 1;
        }
        proof {
            assert(new_flights@.take(new_flights.len() as int) =~= new_flights@);
            assert(new_vecs@.take(new_vecs.len() as int) =~= new_vecs@);
        }
        let ghost adds = actions@;
        let mut k: usize = 0;
        proof {
            lemma_admitted_len(new_flights@, new_vecs@);
            assert(actions@ =~= adds + Seq::new(
                0,
                |n: int| action_for(self.flights@[n], key, all_vecs@[n]),
            ));
        }
        while k < self.flights.len()
            invariant
                k <= self.flights.len(),
                all_vecs.len() == self.flights.len(),
                self.batches@ == old(self).batches@,
                self.flights@ == old(self).flights@ + admitted(new_flights@, new_vecs@),
                all_vecs@ == vecs@ + admitted_vecs(new_vecs@),
                actions@ == adds + Seq::new(
                    k as nat,
                    |n: int| action_for(self.flights@[n], key, all_vecs@[n]),
                ),
            decreases self.flights.len() - k,
        {
            let id = self.flights[k].id;
            let arrival = self.flights[k].arrival_time;
            let vec = all_vecs[k];
            let action = if arrival <= key && key - arrival < REMOVE_WINDOW {
                FlightAction::Remove { id }
            } else {
                match vec {
                    Some(v) => FlightAction::Move { id, vec: v },
                    None => FlightAction::Remove { id },
                }
            };
            proof {
                assert(action == action_for(self.flights@[k as int], key, all_vecs@[k as int]));
            }
            actions.push(action);
            proof {
                assert(actions@ =~= adds + Seq::new(
                    (k + 1) as nat,
                    |n: int| action_for(self.flights@[n], key, all_vecs@[n]),
                ));
            }
            k += 1;
        }
        proof {
            assert(actions@ =~= additions(new_flights@, new_vecs@) + statuses(
                self.flights@,
                key,
                vecs@ + admitted_vecs(new_vecs@),
            ));
        }
        self.record(key, actions);
        proof {
            assert(self.batches@.drop_last() =~= old(self).batches@.filter(
                batch_elsewhere::<R, T>(key),
            ));
        }
    }

    /// Reports the changes of one tick: for each of the times of the tick at
    /// `now`, in turn, the batch of changes that hold at that time.
    ///
    /// The new flights join the registry at the first time, each that has a
    /// movement then, and are reported as added there and nowhere else. At
    /// every time one change is reported of every flight of the registry.
    /// Row `k` of `new_moves` holds the movements of the new flights and row
    /// `k` of `old_moves` those of the flights registered before, at the
    /// `k`-th time. Batches for other times stay as they are, in their order,
    /// before the six of the tick.
    pub fn report_tick(
        &mut self,
        now: u64,
        new_flights: &Vec<Arc<ActiveFlight<R>>>,
        new_moves: &Vec<Vec<Option<FromLoc<T>>>>,
        old_moves: &Vec<Vec<Option<FromLoc<T>>>>,
    )
        requires
            now + DEPART_DELAY + STATUS_COUNT * STATUS_STEP <= u64::MAX,
            new_moves.len() == STATUS_COUNT,
            old_moves.len() == STATUS_COUNT,
            forall|k: int|
                0 <= k < STATUS_COUNT ==> (#[trigger] new_moves[k]).len() == new_flights.len(),
            forall|k: int|
                0 <= k < STATUS_COUNT ==> (#[trigger] old_moves[k]).len() == old(
                    self,
                ).flights.len(),
        ensures
            final(self).flights@ == old(self).flights@ + admitted(new_flights@, new_moves[0]@),
            final(self).batches@.len() == old(self).batches@.filter(
                batch_outside_tick::<R, T>(now, STATUS_COUNT as int),
            ).len() + STATUS_COUNT,
            final(self).batches@.take(final(self).batches@.len() - STATUS_COUNT) == old(
                self,
            ).batches@.filter(batch_outside_tick::<R, T>(now, STATUS_COUNT as int)),
            forall|k: int|
                0 <= k < STATUS_COUNT ==> {
                    let batch = #[trigger] final(self).batches@[final(self).batches@.len()
                        - STATUS_COUNT + k];
                    &&& batch.time == status_key(now, k)
                    &&& batch.actions@ == tick_actions(
                        final(self).flights@,
                        new_flights@,
                        new_moves@,
                        old_moves@,
                        now,
                        k,
                    )
                },
            old(self).wf() ==> final(self).wf(),
    {
        let keys = status_keys(now);
        let ghost old_batches = self.batches@;
        let ghost old_flights = self.flights@;
        let ghost all_flights = old_flights + admitted(new_flights@, new_moves[0]@);
        let none_flights: Vec<Arc<ActiveFlight<R>>> = Vec::new();
        let none_moves: Vec<Option<FromLoc<T>>> = Vec::new();
        let mut k: usize = 0;
        proof {
            lemma_picked(new_flights@, new_moves[0]@, new_moves[0]@);
            assert(old_batches.filter(batch_outside_tick::<R, T>(now, 0)) == old_batches) by {
                lemma_filter_all(old_batches, batch_outside_tick::<R, T>(now, 0));
            }
            assert(old_batches.take(old_batches.len() as int) =~= old_batches);
        }
        while k < 6
            invariant
                k <= 6,
                STATUS_COUNT == 6,
                keys.len() == 6,
                now + DEPART_DELAY + STATUS_COUNT * STATUS_STEP <= u64::MAX,
                forall|j: int| 0 <= j < 6 ==> #[trigger] keys[j] == status_key(now, j),
                new_moves.len() == 6,
                old_moves.len() == 6,
                forall|j: int| 0 <= j < 6 ==> (#[trigger] new_moves[j]).len() == new_flights.len(),
                forall|j: int| 0 <= j < 6 ==> (#[trigger] old_moves[j]).len() == old_flights.len(),
                none_flights@.len() == 0,
                none_moves@.len() == 0,
                old_batches == old(self).batches@,
                old_flights == old(self).flights@,
                all_flights == old_flights + admitted(new_flights@, new_moves[0]@),
                k == 0 ==> self.flights@ == old_flights,
                k > 0 ==> self.flights@ == all_flights,
                old(self).wf() ==> self.wf(),
                self.batches@.len() == old_batches.filter(
                    batch_outside_tick::<R, T>(now, k as int),
                ).len() + k,
                self.batches@.take(self.batches@.len() - k) == old_batches.filter(
                    batch_outside_tick::<R, T>(now, k as int),
                ),
                forall|j: int|
                    0 <= j < k ==> {
                        let batch = #[trigger] self.batches@[self.batches@.len() - k + j];
                        &&& batch.time == status_key(now, j)
                        &&& batch.actions@ == tick_actions(
                            all_flights,
                            new_flights@,
                            new_moves@,
                            old_moves@,
                            now,
                            j,
                        )
                    },
            decreases 6 - k,
        {
            let ghost before = self.batches@;
            let ghost base = before.len() - k;
            let ghost kept = old_batches.filter(batch_outside_tick::<R, T>(now, k as int));
            let ghost fresh = before.skip(base);
            let key = keys[k];
            if k == 0 {
                self.calculate_statuses(key, new_flights, &new_moves[0], &old_moves[0]);
                proof {
                    lemma_picked(new_flights@, new_moves[0]@, new_moves[0]@);
                }
            } else {
                proof {
                    lemma_picked(new_flights@, new_moves[0]@, new_moves[k as int]@);
                    lemma_admitted_len(new_flights@, new_moves[0]@);
                }
                let moves = later_moves(&old_moves[k], &new_moves[0], &new_moves[k]);
                self.calculate_statuses(key, &none_flights, &none_moves, &moves);
                proof {
                    assert(none_flights@ =~= Seq::empty());
                    assert(none_moves@ =~= Seq::empty());
                    assert(admitted_vecs(none_moves@) =~= Seq::empty()) by {
                        reveal(Seq::filter);
                    }
                    assert(admitted(none_flights@, none_moves@) =~= Seq::empty());
                    assert(additions(none_flights@, none_moves@) =~= Seq::<
                        FlightAction<R, T>,
                    >::empty());
                    assert(self.flights@ =~= all_flights);
                    assert(moves@ + admitted_vecs(none_moves@) =~= moves@);
                    assert(self.batches@.last().actions@ =~= statuses(
                        all_flights,
                        key,
                        tick_moves(new_moves@, old_moves@, k as int),
                    ));
                }
            }
            proof {
                let after = self.batches@;
                let elsewhere = batch_elsewhere::<R, T>(key);
                let next = batch_outside_tick::<R, T>(now, k + 1);
                assert(before =~= kept + fresh);
                Seq::filter_distributes_over_add(kept, fresh, elsewhere);
                assert forall|b: ActionBatch<R, T>| #[trigger] next(b) == (batch_outside_tick::<R, T>(
                    now,
                    k as int,
                )(b) && elsewhere(b)) by {
                    if reported_before(now, k + 1, b.time) {
                        let j = choose|j: int| 0 <= j < k + 1 && b.time == #[trigger] status_key(now, j);
                        if j < k {
                            assert(reported_before(now, k as int, b.time));
                        }
                    } else {
                        if reported_before(now, k as int, b.time) {
                            let j = choose|j: int| 0 <= j < k && b.time == #[trigger] status_key(now, j);
                            assert(0 <= j < k + 1 && b.time == status_key(now, j));
                        }
                        if b.time == key {
                            assert(b.time == status_key(now, k as int));
                        }
                    }
                }
                lemma_filter_twice(
                    old_batches,
                    batch_outside_tick::<R, T>(now, k as int),
                    elsewhere,
                    next,
                );
                assert forall|j: int| 0 <= j < fresh.len() implies elsewhere(fresh[j]) by {
                    assert(fresh[j] == before[before.len() - k + j]);
                    assert(status_key(now, j) != status_key(now, k as int));
                }
                lemma_filter_all(fresh, elsewhere);
                let kept_next = old_batches.filter(next);
                assert(after.drop_last() == kept_next + fresh);
                assert(after.len() == kept_next.len() + k + 1);
                assert(after.take(after.len() - (k + 1)) =~= kept_next);
                assert forall|j: int| 0 <= j < k + 1 implies {
                    let batch = #[trigger] after[after.len() - (k + 1) + j];
                    &&& batch.time == status_key(now, j)
                    &&& batch.actions@ == tick_actions(
                        all_flights,
                        new_flights@,
                        new_moves@,
                        old_moves@,
                        now,
                        j,
                    )
                } by {
                    if j < k {
                        assert(after[after.len() - (k + 1) + j] == after.drop_last()[kept_next.len() + j]);
                        assert(after.drop_last()[kept_next.len() + j] == fresh[j]);
                        assert(fresh[j] == before[before.len() - k + j]);
                    } else {
                        assert(after[after.len() - (k + 1) + j] == after.last());
                    }
                }
            }
            k += 1;
        }
    }
}

/// As many flights are admitted as there are movements among the new ones.
pub proof fn lemma_admitted_len<R, T: Vector>(
    new_flights: Seq<Arc<ActiveFlight<R>>>,
    new_vecs: Seq<Option<FromLoc<T>>>,
)
    requires
        new_flights.len() == new_vecs.len(),
    ensures
        admitted(new_flights, new_vecs).len() == admitted_vecs(new_vecs).len(),
        additions(new_flights, new_vecs).len() == admitted_vecs(new_vecs).len(),
        admitted_vecs(new_vecs).len() <= new_vecs.len(),
    decreases new_flights.len(),
{
    let is_some = |v: Option<FromLoc<T>>| v is Some;
    if new_flights.len() == 0 {
        assert(new_vecs.filter(is_some) =~= Seq::empty()) by {
            reveal(Seq::filter);
        }
    } else {
        lemma_admitted_len(new_flights.drop_last(), new_vecs.drop_last());
        assert(new_vecs =~= new_vecs.drop_last().push(new_vecs.last()));
        new_vecs.drop_last().lemma_filter_push(new_vecs.last(), is_some);
    }
}

} // verus!

//! The choice of new flights: how many, between which airports, and on
//! which runways.

use vstd::prelude::*;

use crate::airport::{AirFacility, Runway};
use crate::random::{pick_one, pick_several, random_in};

verus! {

/// One more than the largest number of flights that a tick starts.
pub const NEW_FLIGHT_LIMIT: i32 = 5;

/// A facility from which flights can start: an airport with a runway.
pub open spec fn eligible(f: AirFacility) -> bool {
    f is Airport && f->runways@.len() > 0
}

/// The positions of the eligible facilities, in order.
pub open spec fn eligible_positions(facilities: Seq<AirFacility>) -> Seq<usize>
    decreases facilities.len(),
{
    if facilities.len() == 0 {
        Seq::empty()
    } else {
        let rest = eligible_positions(facilities.drop_last());
        if eligible(facilities.last()) {
            rest.push((facilities.len() - 1) as usize)
        } else {
            rest
        }
    }
}

/// Eligible positions are positions of eligible facilities, in rising
/// order.
pub proof fn lemma_eligible_positions(facilities: Seq<AirFacility>)
    requires
        facilities.len() <= usize::MAX,
    ensures
        forall|k: int|
            0 <= k < eligible_positions(facilities).len() ==> (#[trigger] eligible_positions(
                facilities,
            )[k]) < facilities.len() && eligible(
                facilities[eligible_positions(facilities)[k] as int],
            ),
        forall|j: int, k: int|
            0 <= j < k < eligible_positions(facilities).len() ==> (#[trigger] eligible_positions(
                facilities,
            )[j]) < (#[trigger] eligible_positions(facilities)[k]),
        eligible_positions(facilities).len() <= facilities.len(),
    decreases facilities.len(),
{
    if facilities.len() > 0 {
        lemma_eligible_positions(facilities.drop_last());
        let rest = eligible_positions(facilities.drop_last());
        assert forall|k: int| 0 <= k < rest.len() implies eligible(facilities[rest[k] as int]) by {
            assert(facilities.drop_last()[rest[k] as int] == facilities[rest[k] as int]);
        }
    }
}

/// The positions of the facilities from which flights can start.
pub fn eligible_airports(facilities: &Vec<AirFacility>) -> (r: Vec<usize>)
    ensures
        r@ == eligible_positions(facilities@),
{
    let mut out: Vec<usize> = Vec::new();
    let mut i: usize = 0;
    proof {
        assert(facilities@.take(0) =~= Seq::empty());
    }
    while i < facilities.len()
        invariant
            i <= facilities.len(),
            out@ == eligible_positions(facilities@.take(i as int)),
        decreases facilities.len() - i,
    {
        proof {
            assert(facilities@.take(i + 1).drop_last() =~= facilities@.take(i as int));
        }
        match &facilities[i] {
            AirFacility::Airport { runways, .. } => {
                if runways.len() > 0 {
                    out.push(i);
                }
            },
            _ => {},
        }
        i += 1;
    }
    proof {
        assert(facilities@.take(facilities.len() as int) =~= facilities@);
    }
    out
}

/// A flight to start: the codes of the airports it joins and the runway it
/// uses at each.
#[derive(Debug, PartialEq)]
pub struct FlightPick<'a> {
    pub from: &'a String,
    pub from_runway: &'a Runway,
    pub to: &'a String,
    pub to_runway: &'a Runway,
}

/// `code` and `runway` belong to the eligible facility at position `i`.
pub open spec fn runway_of(facilities: Seq<AirFacility>, i: int, code: String, runway: Runway) -> bool {
    &&& 0 <= i < facilities.len()
    &&& eligible(facilities[i])
    &&& facilities[i]->Airport_code == code
    &&& exists|k: int|
        0 <= k < facilities[i]->runways@.len() && runway == #[trigger] facilities[i]->runways@[k]
}

/// The flight joins two different eligible facilities, on a runway of each.
pub open spec fn valid_pick(facilities: Seq<AirFacility>, pick: FlightPick) -> bool {
    exists|i: int, j: int|
        i != j && #[trigger] runway_of(facilities, i, *pick.from, *pick.from_runway)
            && #[trigger] runway_of(facilities, j, *pick.to, *pick.to_runway)
}

/// The airport's code and one of its runways, chosen at random.
fn pick_runway(facilities: &Vec<AirFacility>, i: usize) -> (r: Option<(&String, &Runway)>)
    requires
        i < facilities.len(),
        eligible(facilities[i as int]),
    ensures
        r matches Some(found) && runway_of(facilities@, i as int, *found.0, *found.1),
{
    match &facilities[i] {
        AirFacility::Airport { code, runways, .. } => {
            match pick_one(runways.as_slice()) {
                Some(runway) => Some((code, runway)),
                None => None,
            }
        },
        _ => None,
    }
}

/// Two different eligible facilities with a runway each, chosen at random;
/// `None` exactly when fewer than two facilities are eligible.
pub fn choose_pair(facilities: &Vec<AirFacility>) -> (r: Option<FlightPick>)
    ensures
        r is None <==> eligible_positions(facilities@).len() < 2,
        r matches Some(pick) ==> valid_pick(facilities@, pick),
{
    let candidates = eligible_airports(facilities);
    let total = facilities.len();
    if candidates.len() < 2 {
        return None;
    }
    let chosen = pick_several(candidates.as_slice(), 2);
    let a = *chosen[0];
    let b = *chosen[1];
    proof {
        assert(facilities@.len() == total);
        lemma_eligible_positions(facilities@);
        let at = choose|at: Seq<int>|
            #![trigger at.len()]
            {
                &&& at.len() == chosen.len()
                &&& at.no_duplicates()
                &&& forall|k: int|
                    0 <= k < chosen.len() ==> 0 <= #[trigger] at[k] < candidates@.len()
                        && *chosen[k] == candidates@[at[k]]
            };
        assert(at[0] != at[1]);
        assert(a == candidates@[at[0]]);
        assert(b == candidates@[at[1]]);
        assert(a != b);
    }
    match (pick_runway(facilities, a), pick_runway(facilities, b)) {
        (Some((from, from_runway)), Some((to, to_runway))) => {
            let pick = FlightPick { from, from_runway, to, to_runway };
            proof {
                assert(a as int != b as int);
                assert(runway_of(facilities@, a as int, *pick.from, *pick.from_runway));
                assert(runway_of(facilities@, b as int, *pick.to, *pick.to_runway));
                assert(valid_pick(facilities@, pick));
            }
            Some(pick)
        },
        _ => None,
    }
}

/// `count` flights to start, each between two different eligible
/// facilities chosen at random; none where fewer than two facilities are
/// eligible.
pub fn choose_flights_of(facilities: &Vec<AirFacility>, count: usize) -> (r: Vec<FlightPick>)
    ensures
        r.len() == if eligible_positions(facilities@).len() < 2 {
            0
        } else {
            count
        },
        forall|k: int| 0 <= k < r.len() ==> valid_pick(facilities@, #[trigger] r[k]),
{
    let mut picks: Vec<FlightPick> = Vec::new();
    let mut n: usize = 0;
    while n < count
        invariant
            n <= count,
            picks.len() == if eligible_positions(facilities@).len() < 2 {
                0
            } else {
                n
            },
            forall|k: int| 0 <= k < picks.len() ==> valid_pick(facilities@, #[trigger] picks[k]),
        decreases count - n,
    {
        match choose_pair(facilities) {
            Some(pick) => {
                picks.push(pick);
            },
            None => {},
        }
        n += 1;
    }
    picks
}

/// The flights that a tick starts: a random number of them below the limit,
/// chosen as by `choose_flights_of`.
pub fn choose_flights(facilities: &Vec<AirFacility>) -> (r: Vec<FlightPick>)
    ensures
        r.len() < NEW_FLIGHT_LIMIT,
        eligible_positions(facilities@).len() < 2 ==> r.len() == 0,
        forall|k: int| 0 <= k < r.len() ==> valid_pick(facilities@, #[trigger] r[k]),
{
    let count = random_in(0, NEW_FLIGHT_LIMIT - 1);
    choose_flights_of(facilities, count as usize)
}

/// `s` is the name of one of the airlines that fly.
pub open spec fn is_airline_name(s: Seq<char>) -> bool {
    ||| s == "Example Air"@
    ||| s == "Lorem Ipsum Air"@
    ||| s == "Broken GPS Airlines"@
    ||| s == "0% Reliability Airlines"@
    ||| s == "Gas"@
    ||| s == "Lumeva Airlink"@
}

/// `s` is the name of one of the aircraft that fly.
pub open spec fn is_aircraft_name(s: Seq<char>) -> bool {
    ||| s == "Stratus SA-1"@
    ||| s == "IntraJet ExpiXS"@
    ||| s == "Fighter Jet"@
    ||| s == "Dragon"@
}

/// The names of the airlines that fly.
pub fn airline_names() -> (r: Vec<&'static str>)
    ensures
        r.len() == 6,
        r[0]@ == "Example Air"@,
        r[1]@ == "Lorem Ipsum Air"@,
        r[2]@ == "Broken GPS Airlines"@,
        r[3]@ == "0% Reliability Airlines"@,
        r[4]@ == "Gas"@,
        r[5]@ == "Lumeva Airlink"@,
{
    let mut names: Vec<&'static str> = Vec::new();
    names.push("Example Air");
    names.push("Lorem Ipsum Air");
    names.push("Broken GPS Airlines");
    names.push("0% Reliability Airlines");
    names.push("Gas");
    names.push("Lumeva Airlink");
    names
}

/// The names of the aircraft that fly.
pub fn aircraft_names() -> (r: Vec<&'static str>)
    ensures
        r.len() == 4,
        r[0]@ == "Stratus SA-1"@,
        r[1]@ == "IntraJet ExpiXS"@,
        r[2]@ == "Fighter Jet"@,
        r[3]@ == "Dragon"@,
{
    let mut names: Vec<&'static str> = Vec::new();
    names.push("Stratus SA-1");
    names.push("IntraJet ExpiXS");
    names.push("Fighter Jet");
    names.push("Dragon");
    names
}

/// An airline and an aircraft for a new flight, each chosen at random among
/// those that fly.
pub fn choose_livery() -> (r: (&'static str, &'static str))
    ensures
        is_airline_name(r.0@),
        is_aircraft_name(r.1@),
{
    let airlines = airline_names();
    let aircraft = aircraft_names();
    let airline = match pick_one(airlines.as_slice()) {
        Some(name) => *name,
        None => "Example Air",
    };
    let craft = match pick_one(aircraft.as_slice()) {
        Some(name) => *name,
        None => "Dragon",
    };
    (airline, craft)
}

} // verus!

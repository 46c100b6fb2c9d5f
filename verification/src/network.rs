//! The waypoint network: named lattice points joined by undirected airways,
//! and what it means for a sequence of waypoints to be a route through it.

use vstd::prelude::*;
use vstd::std_specs::cmp::PartialEqSpecImpl;

use crate::distance::span_up;
use crate::vector::Point;

verus! {

/// A named position of the reference data.
#[derive(Clone, Debug, PartialEq, Eq)]
pub struct Waypoint {
    pub name: String,
    pub coords: Point,
}

/// An undirected connection between two waypoints, given by their names.
#[derive(Clone, Debug, Eq)]
pub struct Airway {
    pub waypoint1: String,
    pub waypoint2: String,
}

impl PartialEq for Airway {
    /// Two airways are equal when they join the same two names, in either
    /// order.
    fn eq(&self, other: &Self) -> (r: bool) {
        (self.waypoint2 == other.waypoint1 && self.waypoint1 == other.waypoint2) || (
        self.waypoint2 == other.waypoint2 && self.waypoint1 == other.waypoint1)
    }
}

impl PartialEqSpecImpl for Airway {
    /// Equality is exactly as `eq_spec` says.
    open spec fn obeys_eq_spec() -> bool {
        true
    }

    /// The same two names, in either order.
    open spec fn eq_spec(&self, other: &Self) -> bool {
        (self.waypoint2@ == other.waypoint1@ && self.waypoint1@ == other.waypoint2@) || (
        self.waypoint2@ == other.waypoint2@ && self.waypoint1@ == other.waypoint1@)
    }
}

/// Why no route could be produced.
#[derive(Copy, Clone, PartialEq, Eq, Debug, Structural)]
pub enum RouteError {
    /// The reference data is empty or names a waypoint that does not exist.
    ReferenceDataError,
    /// The goal cannot be reached from the start.
    RouteNotFound,
}

/// `i` is the first position in `waypoints` that carries `name`.
pub open spec fn is_first_named(waypoints: Seq<Waypoint>, name: Seq<char>, i: int) -> bool {
    &&& 0 <= i < waypoints.len()
    &&& waypoints[i].name@ == name
    &&& forall|j: int| 0 <= j < i ==> (#[trigger] waypoints[j]).name@ != name
}

/// Some waypoint carries `name`.
pub open spec fn has_name(waypoints: Seq<Waypoint>, name: Seq<char>) -> bool {
    exists|i: int| 0 <= i < waypoints.len() && (#[trigger] waypoints[i]).name@ == name
}

/// The link joins `a` and `b`, in either order.
pub open spec fn joins(link: (usize, usize), a: usize, b: usize) -> bool {
    (link.0 == a && link.1 == b) || (link.0 == b && link.1 == a)
}

/// The first waypoint that carries `name`, if any does.
pub fn find_waypoint(waypoints: &Vec<Waypoint>, name: &String) -> (r: Option<usize>)
    ensures
        match r {
            Some(i) => is_first_named(waypoints@, name@, i as int),
            None => !has_name(waypoints@, name@),
        },
{
    let mut i: usize = 0;
    while i < waypoints.len()
        invariant
            i <= waypoints.len(),
            forall|j: int| 0 <= j < i ==> (#[trigger] waypoints@[j]).name@ != name@,
        decreases waypoints.len() - i,
    {
        if waypoints[i].name == *name {
            return Some(i);
        }
        i += 1;
    }
    None
}

/// Waypoints with their airways resolved to positions in the waypoint list.
#[derive(Clone, Debug)]
pub struct Network {
    pub waypoints: Vec<Waypoint>,
    pub links: Vec<(usize, usize)>,
}

impl Network {
    /// Every link joins two positions of the waypoint list.
    pub open spec fn wf(&self) -> bool {
        forall|j: int|
            0 <= j < self.links.len() ==> (#[trigger] self.links[j]).0 < self.waypoints.len()
                && self.links[j].1 < self.waypoints.len()
    }

    /// An airway joins `a` and `b`.
    pub open spec fn linked(&self, a: usize, b: usize) -> bool {
        exists|j: int| 0 <= j < self.links.len() && joins(#[trigger] self.links[j], a, b)
    }

    /// Length of the hop from `a` to `b` in fine units (thousandths of a
    /// length unit): their distance, rounded up.
    pub open spec fn cost(&self, a: usize, b: usize) -> nat {
        span_up(self.waypoints[a as int].coords, self.waypoints[b as int].coords)
    }

    /// `r` is a non-empty sequence of waypoints in which each is joined to
    /// the next by an airway.
    pub open spec fn is_route(&self, r: Seq<usize>) -> bool {
        &&& r.len() > 0
        &&& forall|i: int| 0 <= i < r.len() ==> #[trigger] r[i] < self.waypoints.len()
        &&& forall|i: int| 0 <= i < r.len() - 1 ==> self.linked(#[trigger] r[i], r[i + 1])
    }

    /// `r` is a route that starts at `a` and ends at `b`.
    pub open spec fn connects(&self, r: Seq<usize>, a: usize, b: usize) -> bool {
        self.is_route(r) && r[0] == a && r[r.len() - 1] == b
    }

    /// Total length of the hops of `r`.
    pub open spec fn route_cost(&self, r: Seq<usize>) -> nat
        decreases r.len(),
    {
        if r.len() <= 1 {
            0
        } else {
            self.route_cost(r.drop_last()) + self.cost(r[r.len() - 2], r[r.len() - 1])
        }
    }

    /// Whether every link joins two positions of the waypoint list.
    pub fn is_wf(&self) -> (b: bool)
        ensures
            b == self.wf(),
    {
        let n = self.waypoints.len();
        let mut j: usize = 0;
        while j < self.links.len()
            invariant
                j <= self.links.len(),
                n == self.waypoints.len(),
                forall|k: int|
                    0 <= k < j ==> (#[trigger] self.links[k]).0 < n && self.links[k].1 < n,
            decreases self.links.len() - j,
        {
            if self.links[j].0 >= n || self.links[j].1 >= n {
                return false;
            }
            j += 1;
        }
        true
    }

    /// Resolves the airways' names against the waypoint list. Fails exactly
    /// when an airway names a waypoint that is not listed.
    pub fn build(waypoints: Vec<Waypoint>, airways: &Vec<Airway>) -> (r: Result<
        Network,
        RouteError,
    >)
        ensures
            match r {
                Ok(net) => {
                    &&& net.wf()
                    &&& net.waypoints@ == waypoints@
                    &&& net.links.len() == airways.len()
                    &&& forall|k: int|
                        0 <= k < airways.len() ==> is_first_named(
                            waypoints@,
                            (#[trigger] airways[k]).waypoint1@,
                            net.links[k].0 as int,
                        ) && is_first_named(
                            waypoints@,
                            airways[k].waypoint2@,
                            net.links[k].1 as int,
                        )
                },
                Err(e) => {
                    &&& e == RouteError::ReferenceDataError
                    &&& exists|k: int|
                        0 <= k < airways.len() && (!has_name(
                            waypoints@,
                            (#[trigger] airways[k]).waypoint1@,
                        ) || !has_name(waypoints@, airways[k].waypoint2@))
                },
            },
    {
        let mut links: Vec<(usize, usize)> = Vec::new();
        let mut k: usize = 0;
        while k < airways.len()
            invariant
                k <= airways.len(),
                links.len() == k,
                forall|j: int|
                    0 <= j < k ==> (#[trigger] links[j]).0 < waypoints.len() && links[j].1
                        < waypoints.len(),
                forall|j: int|
                    0 <= j < k ==> is_first_named(
                        waypoints@,
                        (#[trigger] airways[j]).waypoint1@,
                        links[j].0 as int,
                    ) && is_first_named(waypoints@, airways[j].waypoint2@, links[j].1 as int),
            decreases airways.len() - k,
        {
            let a = find_waypoint(&waypoints, &airways[k].waypoint1);
            let b = find_waypoint(&waypoints, &airways[k].waypoint2);
            match (a, b) {
                (Some(a), Some(b)) => {
                    links.push((a, b));
                },
                _ => {
                    return Err(RouteError::ReferenceDataError);
                },
            }
            k += 1;
        }
        Ok(Network { waypoints, links })
    }
}

} // verus!

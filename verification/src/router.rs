//! Shortest routes through the waypoint network by best-first search with
//! the straight-line distance to the goal as the estimate.

use vstd::prelude::*;
use vstd::set_lib::{lemma_int_range, lemma_len_subset, set_int_range};

use crate::distance::{
    distance_down, distance_up, lemma_floor_sqrt_zero, lemma_triangle, length_sq, max_span,
    norm_sq, span_down, FINE,
};
use crate::network::{joins, Network, RouteError};
use crate::vector::{FromLoc, Point};

verus! {

/// Estimated remaining length from `v` to `end`: their distance in fine
/// units, rounded down.
pub open spec fn estimate(net: &Network, end: usize, v: usize) -> nat {
    span_down(net.waypoints[v as int].coords, net.waypoints[end as int].coords)
}

/// Sum of the entries of `s`.
spec fn total(s: Seq<nat>) -> nat
    decreases s.len(),
{
    if s.len() == 0 {
        0
    } else {
        total(s.drop_last()) + s.last()
    }
}

/// Changing one entry changes the sum by the difference.
proof fn lemma_total_update(s: Seq<nat>, i: int, x: nat)
    requires
        0 <= i < s.len(),
    ensures
        total(s.update(i, x)) + s[i] == total(s) + x,
    decreases s.len(),
{
    let t = s.update(i, x);
    if i == s.len() - 1 {
        assert(t.drop_last() =~= s.drop_last());
    } else {
        assert(t.drop_last() =~= s.drop_last().update(i, x));
        lemma_total_update(s.drop_last(), i, x);
    }
}

/// Splitting a route at one of its waypoints splits its length.
proof fn lemma_cost_split(net: &Network, r: Seq<usize>, i: int)
    requires
        0 <= i < r.len(),
    ensures
        net.route_cost(r) == net.route_cost(r.take(i + 1)) + net.route_cost(r.skip(i)),
    decreases r.len(),
{
    if i == r.len() - 1 {
        assert(r.take(i + 1) =~= r);
        assert(r.skip(i).len() == 1);
    } else {
        let front = r.drop_last();
        lemma_cost_split(net, front, i);
        assert(r.take(i + 1) =~= front.take(i + 1));
        assert(r.skip(i).drop_last() =~= front.skip(i));
        let tail = r.skip(i);
        assert(tail.len() >= 2);
        assert(tail[tail.len() - 2] == r[r.len() - 2]);
        assert(tail[tail.len() - 1] == r[r.len() - 1]);
    }
}

/// A part of a route is a route.
proof fn lemma_route_skip(net: &Network, r: Seq<usize>, i: int)
    requires
        net.is_route(r),
        0 <= i < r.len(),
    ensures
        net.is_route(r.skip(i)),
{
    let t = r.skip(i);
    assert forall|k: int| 0 <= k < t.len() implies #[trigger] t[k] < net.waypoints.len() by {
        assert(t[k] == r[k + i]);
    }
    assert forall|k: int| 0 <= k < t.len() - 1 implies net.linked(#[trigger] t[k], t[k + 1]) by {
        assert(t[k] == r[k + i]);
        assert(t[k + 1] == r[k + i + 1]);
    }
}

/// The estimate never exceeds the length of a route to the goal.
proof fn lemma_estimate_admissible(net: &Network, end: usize, q: Seq<usize>)
    requires
        net.is_route(q),
        q[q.len() - 1] == end,
    ensures
        estimate(net, end, q[0]) <= net.route_cost(q),
    decreases q.len(),
{
    if q.len() == 1 {
        let c = net.waypoints[end as int].coords;
        assert(norm_sq(FINE * (c.x - c.x), FINE * (c.y - c.y)) == 0) by (nonlinear_arith);
        lemma_floor_sqrt_zero();
    } else {
        let rest = q.skip(1);
        lemma_route_skip(net, q, 1);
        assert(rest[rest.len() - 1] == end);
        assert(rest[0] == q[1]);
        lemma_estimate_admissible(net, end, rest);
        lemma_cost_split(net, q, 1);
        let hop = q.take(2);
        assert(hop.drop_last().len() == 1);
        assert(net.route_cost(hop.drop_last()) == 0);
        assert(net.route_cost(hop) == net.cost(q[0], q[1]));
        let a = net.waypoints[q[0] as int].coords;
        let b = net.waypoints[q[1] as int].coords;
        let c = net.waypoints[end as int].coords;
        lemma_triangle(
            FINE * (a.x - b.x),
            FINE * (a.y - b.y),
            FINE * (b.x - c.x),
            FINE * (b.y - c.y),
        );
        assert(FINE * (a.x - b.x) + FINE * (b.x - c.x) == FINE * (a.x - c.x));
        assert(FINE * (a.y - b.y) + FINE * (b.y - c.y) == FINE * (a.y - c.y));
    }
}

/// Working state of a search: for each waypoint whether a route to it is
/// known and how long the best known one is, whether it awaits expansion,
/// and the waypoint before it on that route.
struct Search {
    known: Vec<bool>,
    open: Vec<bool>,
    g: Vec<u128>,
    from: Vec<usize>,
}

impl Search {
    /// The state has an entry for each of `n` waypoints.
    spec fn shaped(&self, n: nat) -> bool {
        &&& self.known.len() == n
        &&& self.open.len() == n
        &&& self.g.len() == n
        &&& self.from.len() == n
    }

    /// The start is known at length zero, and what awaits expansion is known.
    spec fn rooted(&self, start: usize) -> bool {
        &&& start < self.known.len()
        &&& self.known[start as int]
        &&& self.g[start as int] == 0
        &&& forall|v: int| 0 <= v < self.open.len() && #[trigger] self.open[v] ==> self.known[v]
    }

    /// The known length of `v` is accounted for by its predecessor, and
    /// predecessors come strictly earlier in the order by length and rank.
    spec fn tree_at(&self, net: &Network, start: usize, rank: Seq<nat>, v: int) -> bool {
        self.known[v] && v != start ==> {
            let p = self.from[v];
            &&& p < self.known.len()
            &&& self.known[p as int]
            &&& net.linked(p, v as usize)
            &&& self.g[p as int] + net.cost(p, v as usize) <= self.g[v]
            &&& (self.g[p as int] < self.g[v] || rank[p as int] < rank[v])
        }
    }

    /// Every known waypoint but the start has such a predecessor.
    spec fn tree(&self, net: &Network, start: usize, rank: Seq<nat>) -> bool {
        &&& rank.len() == self.known.len()
        &&& forall|v: int|
            0 <= v < self.known.len() ==> #[trigger] self.tree_at(net, start, rank, v)
    }

    /// If `a` has been expanded, the hop from `a` to `b` cannot improve `b`.
    spec fn hop_settled(&self, net: &Network, a: usize, b: usize) -> bool {
        self.known[a as int] && !self.open[a as int] ==> self.known[b as int] && self.g[b as int]
            <= self.g[a as int] + net.cost(a, b)
    }

    /// Both directions of link `j` are settled, but for hops out of `skip`.
    spec fn link_settled(&self, net: &Network, j: int, skip: int) -> bool {
        let a = net.links[j].0;
        let b = net.links[j].1;
        &&& a != skip ==> self.hop_settled(net, a, b)
        &&& b != skip ==> self.hop_settled(net, b, a)
    }

    /// Every link is settled, but for hops out of `skip`.
    spec fn settled(&self, net: &Network, skip: int) -> bool {
        forall|j: int| 0 <= j < net.links.len() ==> #[trigger] self.link_settled(net, j, skip)
    }

    /// `seen` is the set of known waypoints, and each known length is below
    /// what that many hops can add up to.
    spec fn bounded(&self, seen: Set<int>) -> bool {
        &&& seen.finite()
        &&& forall|x: int| seen.contains(x) ==> 0 <= x < self.known.len()
        &&& forall|v: int| 0 <= v < self.known.len() ==> (#[trigger] self.known[v] <==> seen.contains(v))
        &&& forall|v: int|
            0 <= v < self.known.len() && #[trigger] self.known[v] ==> self.g[v] + max_span()
                <= seen.len() * max_span()
    }

    /// What holds of the state throughout a search from `start` to `end`;
    /// in particular, the goal awaits expansion as soon as it is known.
    spec fn inv(&self, net: &Network, start: usize, end: usize, rank: Seq<nat>, seen: Set<int>) -> bool {
        &&& net.wf()
        &&& self.shaped(net.waypoints.len() as nat)
        &&& end < net.waypoints.len()
        &&& self.rooted(start)
        &&& self.tree(net, start, rank)
        &&& self.bounded(seen)
        &&& (self.known[end as int] ==> self.open[end as int])
    }

    /// Contribution of `v` to the measure that every step of the search
    /// lowers.
    spec fn weight(&self, big: nat, v: int) -> nat {
        2 * (if self.known[v] {
            self.g[v] as nat
        } else {
            big
        }) + (if self.open[v] {
            1nat
        } else {
            0nat
        })
    }

    /// The contribution of every waypoint.
    spec fn weights(&self, big: nat) -> Seq<nat> {
        Seq::new(self.known.len() as nat, |v: int| self.weight(big, v))
    }

    /// The measure that every step of the search lowers.
    spec fn potential(&self, big: nat) -> nat {
        total(self.weights(big))
    }
}

/// Above every known length of a search over `n` waypoints.
spec fn ceiling(n: nat) -> nat {
    n * max_span() + 1
}

/// No more waypoints are known than there are.
proof fn lemma_seen_bound(st: &Search, seen: Set<int>)
    requires
        st.bounded(seen),
    ensures
        seen.len() <= st.known.len(),
{
    let n = st.known.len() as int;
    lemma_int_range(0, n);
    assert(seen.subset_of(set_int_range(0, n)));
    lemma_len_subset(seen, set_int_range(0, n));
}

/// A set of positions below `n` that lacks one of them has fewer than `n`
/// members.
proof fn lemma_room(seen: Set<int>, n: int, v: int)
    requires
        seen.finite(),
        forall|x: int| seen.contains(x) ==> 0 <= x < n,
        0 <= v < n,
        !seen.contains(v),
    ensures
        seen.insert(v).len() == seen.len() + 1,
        seen.len() + 1 <= n,
{
    lemma_int_range(0, n);
    assert(seen.insert(v).subset_of(set_int_range(0, n)));
    lemma_len_subset(seen.insert(v), set_int_range(0, n));
}

/// Waypoint `i` of the route `r` awaits expansion, with a known length
/// within that of the route up to it.
spec fn on_frontier(st: &Search, net: &Network, r: Seq<usize>, i: int) -> bool {
    &&& 0 <= i < r.len()
    &&& st.open[r[i] as int]
    &&& st.g[r[i] as int] <= net.route_cost(r.take(i + 1))
}

/// Along any route from the start, either the end's known length is within
/// the route's length, or some waypoint of the route is on the frontier.
proof fn lemma_frontier(st: &Search, net: &Network, start: usize, r: Seq<usize>)
    requires
        net.wf(),
        st.shaped(net.waypoints.len() as nat),
        st.rooted(start),
        st.settled(net, -1),
        net.is_route(r),
        r[0] == start,
    ensures
        (st.known[r[r.len() - 1] as int] && st.g[r[r.len() - 1] as int] <= net.route_cost(r))
            || exists|i: int| on_frontier(st, net, r, i),
    decreases r.len(),
{
    if r.len() == 1 {
    } else {
        let front = r.drop_last();
        assert forall|k: int| 0 <= k < front.len() implies #[trigger] front[k]
            < net.waypoints.len() by {
            assert(front[k] == r[k]);
        }
        assert forall|k: int| 0 <= k < front.len() - 1 implies net.linked(
            #[trigger] front[k],
            front[k + 1],
        ) by {
            assert(front[k] == r[k]);
            assert(front[k + 1] == r[k + 1]);
        }
        lemma_frontier(st, net, start, front);
        let a = r[r.len() - 2];
        let b = r[r.len() - 1];
        assert(front[front.len() - 1] == a);
        if st.known[a as int] && st.g[a as int] <= net.route_cost(front) {
            if st.open[a as int] {
                assert(r.take(r.len() - 1) =~= front);
                assert(on_frontier(st, net, r, r.len() - 2));
            } else {
                assert(net.linked(r[r.len() - 2], r[r.len() - 2 + 1]));
                let j = choose|j: int| 0 <= j < net.links.len() && joins(#[trigger] net.links[j], a, b);
                assert(st.link_settled(net, j, -1));
                assert(st.hop_settled(net, a, b));
            }
        } else {
            let i = choose|i: int| on_frontier(st, net, front, i);
            assert(front.take(i + 1) =~= r.take(i + 1));
            assert(front[i] == r[i]);
            assert(on_frontier(st, net, r, i));
        }
    }
}

/// When the goal is the waypoint with the least sum of known length and
/// estimate among those that await expansion, no route to it is shorter than
/// its known length.
proof fn lemma_goal_optimal(st: &Search, net: &Network, start: usize, end: usize, other: Seq<usize>)
    requires
        net.wf(),
        st.shaped(net.waypoints.len() as nat),
        st.rooted(start),
        st.settled(net, -1),
        end < net.waypoints.len(),
        st.known[end as int],
        forall|v: int|
            0 <= v < st.open.len() && #[trigger] st.open[v] ==> st.g[end as int] <= st.g[v]
                + estimate(net, end, v as usize),
        net.connects(other, start, end),
    ensures
        st.g[end as int] <= net.route_cost(other),
{
    lemma_frontier(st, net, start, other);
    if !(st.g[end as int] <= net.route_cost(other)) {
        let i = choose|i: int| on_frontier(st, net, other, i);
        let rest = other.skip(i);
        lemma_route_skip(net, other, i);
        assert(rest[rest.len() - 1] == end);
        assert(rest[0] == other[i]);
        lemma_estimate_admissible(net, end, rest);
        lemma_cost_split(net, other, i);
        assert(other[i] < net.waypoints.len());
        assert(st.open[other[i] as int]);
    }
}

/// The estimate of every waypoint towards `end`.
fn estimates(net: &Network, end: usize) -> (h: Vec<u64>)
    requires
        end < net.waypoints.len(),
    ensures
        h.len() == net.waypoints.len(),
        forall|v: int| 0 <= v < h.len() ==> #[trigger] h[v] == estimate(net, end, v as usize),
{
    let mut h: Vec<u64> = Vec::new();
    let mut v: usize = 0;
    while v < net.waypoints.len()
        invariant
            v <= net.waypoints.len(),
            end < net.waypoints.len(),
            h.len() == v,
            forall|w: int| 0 <= w < v ==> #[trigger] h[w] == estimate(net, end, w as usize),
        decreases net.waypoints.len() - v,
    {
        h.push(distance_down(net.waypoints[v].coords, net.waypoints[end].coords));
        v += 1;
    }
    h
}

/// The state in which only the start is known, at length zero, and awaits
/// expansion.
fn fresh(n: usize, start: usize) -> (st: Search)
    requires
        start < n,
    ensures
        st.shaped(n as nat),
        forall|v: int| 0 <= v < n ==> #[trigger] st.known[v] == (v == start),
        forall|v: int| 0 <= v < n ==> #[trigger] st.open[v] == (v == start),
        forall|v: int| 0 <= v < n ==> #[trigger] st.g[v] == 0,
{
    let mut known: Vec<bool> = Vec::new();
    let mut open: Vec<bool> = Vec::new();
    let mut g: Vec<u128> = Vec::new();
    let mut from: Vec<usize> = Vec::new();
    let mut v: usize = 0;
    while v < n
        invariant
            v <= n,
            known.len() == v,
            open.len() == v,
            g.len() == v,
            from.len() == v,
            forall|w: int| 0 <= w < v ==> #[trigger] known[w] == (w == start),
            forall|w: int| 0 <= w < v ==> #[trigger] open[w] == (w == start),
            forall|w: int| 0 <= w < v ==> #[trigger] g[w] == 0,
        decreases n - v,
    {
        known.push(v == start);
        open.push(v == start);
        g.push(0);
        from.push(v);
        v += 1;
    }
    Search { known, open, g, from }
}

/// The waypoint that awaits expansion with the least sum of known length and
/// estimate; among several, the one that is listed first.
fn pick(st: &Search, h: &Vec<u64>) -> (r: Option<usize>)
    requires
        st.shaped(h.len() as nat),
        forall|v: int|
            0 <= v < h.len() && #[trigger] st.open[v] ==> st.g[v] <= h.len() * max_span(),
    ensures
        match r {
            Some(u) => {
                &&& u < h.len()
                &&& st.open[u as int]
                &&& forall|v: int|
                    0 <= v < h.len() && #[trigger] st.open[v] ==> st.g[u as int] + h[u as int]
                        <= st.g[v] + h[v]
            },
            None => forall|v: int| 0 <= v < h.len() ==> !#[trigger] st.open[v],
        },
{
    let mut best: Option<usize> = None;
    let mut best_f: u128 = 0;
    let mut v: usize = 0;
    while v < h.len()
        invariant
            v <= h.len(),
            st.shaped(h.len() as nat),
            forall|w: int|
                0 <= w < h.len() && #[trigger] st.open[w] ==> st.g[w] <= h.len() * max_span(),
            match best {
                Some(u) => {
                    &&& u < v
                    &&& st.open[u as int]
                    &&& best_f == st.g[u as int] + h[u as int]
                    &&& forall|w: int| 0 <= w < v && #[trigger] st.open[w] ==> best_f <= st.g[w] + h[w]
                },
                None => forall|w: int| 0 <= w < v ==> !#[trigger] st.open[w],
            },
        decreases h.len() - v,
    {
        if st.open[v] {
            assert(st.g[v as int] <= h.len() * max_span());
            assert(h.len() * max_span() <= 0xffff_ffff_ffff_ffff * 0x800_0000_0000) by (nonlinear_arith)
                requires
                    h.len() <= 0xffff_ffff_ffff_ffff,
                    max_span() == 0x800_0000_0000,
            ;
            let f: u128 = st.g[v] + h[v] as u128;
            if best.is_none() || f < best_f {
                best = Some(v);
                best_f = f;
            }
        }
        v += 1;
    }
    best
}

/// Offers every neighbour of `u` the route through `u`, and takes it where
/// it is shorter than what is known.
fn expand(
    net: &Network,
    st: &mut Search,
    start: usize,
    end: usize,
    u: usize,
    Ghost(rank0): Ghost<Seq<nat>>,
    Ghost(seen0): Ghost<Set<int>>,
) -> (out: (Ghost<Seq<nat>>, Ghost<Set<int>>))
    requires
        old(st).inv(net, start, end, rank0, seen0),
        u < net.waypoints.len(),
        old(st).known[u as int],
        !old(st).open[u as int],
        old(st).settled(net, u as int),
    ensures
        final(st).inv(net, start, end, out.0@, out.1@),
        final(st).settled(net, -1),
        final(st).potential(ceiling(net.waypoints.len() as nat)) <= old(st).potential(
            ceiling(net.waypoints.len() as nat),
        ),
{
    let ghost mut rank = rank0;
    let ghost mut seen = seen0;
    let ghost n = net.waypoints.len() as nat;
    let ghost big = ceiling(n);
    let ghost gu = st.g[u as int];
    let mut j: usize = 0;
    while j < net.links.len()
        invariant
            j <= net.links.len(),
            n == net.waypoints.len(),
            big == ceiling(n),
            u < n,
            st.inv(net, start, end, rank, seen),
            st.known[u as int],
            !st.open[u as int],
            st.g[u as int] == gu,
            st.settled(net, u as int),
            forall|k: int| 0 <= k < j ==> #[trigger] st.link_settled(net, k, -1),
            st.potential(big) <= old(st).potential(big),
        decreases net.links.len() - j,
    {
        let link = net.links[j];
        assert(st.link_settled(net, j as int, u as int));
        let next: Option<usize> = if link.0 == u {
            Some(link.1)
        } else if link.1 == u {
            Some(link.0)
        } else {
            None
        };
        match next {
            None => {},
            Some(v) => {
                assert(joins(net.links[j as int], u, v));
                assert(net.linked(u, v));
                let w = distance_up(net.waypoints[u].coords, net.waypoints[v].coords);
                proof {
                    lemma_seen_bound(st, seen);
                    assert(seen.len() * max_span() <= 0xffff_ffff_ffff_ffff * 0x800_0000_0000)
                        by (nonlinear_arith)
                        requires
                            seen.len() <= 0xffff_ffff_ffff_ffff,
                            max_span() == 0x800_0000_0000,
                    ;
                }
                let tent: u128 = st.g[u] + w as u128;
                if !st.known[v] || tent < st.g[v] {
                    let ghost before = *st;
                    let ghost was_known = st.known[v as int];
                    assert(v != u);
                    assert(v != start);
                    st.from[v] = u;
                    st.g[v] = tent;
                    st.known[v] = true;
                    st.open[v] = true;
                    proof {
                        let rank1 = rank.update(v as int, rank[u as int] + 1);
                        let seen1 = seen.insert(v as int);
                        assert(before.tree_at(net, start, rank, v as int));
                        // what the step lowers
                        assert(st.weights(big) =~= before.weights(big).update(
                            v as int,
                            st.weight(big, v as int),
                        ));
                        lemma_total_update(before.weights(big), v as int, st.weight(big, v as int));
                        assert(seen.len() * max_span() <= n * max_span()) by (nonlinear_arith)
                            requires
                                seen.len() <= n,
                        ;
                        if !was_known {
                            lemma_room(seen, n as int, v as int);
                        }
                        assert(st.weight(big, v as int) <= before.weight(big, v as int));
                        // the predecessors still account for the lengths
                        assert forall|x: int| 0 <= x < n implies #[trigger] st.tree_at(
                            net,
                            start,
                            rank1,
                            x,
                        ) by {
                            assert(before.tree_at(net, start, rank, x));
                        }
                        // expanded waypoints stay settled
                        assert forall|k: int| 0 <= k < net.links.len() implies #[trigger] st.link_settled(
                            net,
                            k,
                            u as int,
                        ) by {
                            assert(before.link_settled(net, k, u as int));
                        }
                        assert forall|k: int| 0 <= k < j implies #[trigger] st.link_settled(
                            net,
                            k,
                            -1,
                        ) by {
                            assert(before.link_settled(net, k, -1));
                        }
                        rank = rank1;
                        seen = seen1;
                    }
                }
            },
        }
        assert(st.link_settled(net, j as int, -1));
        j += 1;
    }
    (Ghost(rank), Ghost(seen))
}

/// Waypoint `a` comes later than `b` in the order by known length and rank.
spec fn above(st: &Search, rank: Seq<nat>, a: int, b: int) -> bool {
    st.g[a] > st.g[b] || (st.g[a] == st.g[b] && rank[a] > rank[b])
}

/// The route to `end` that the predecessors record, from the start onwards.
fn trace(net: &Network, st: &Search, start: usize, end: usize, Ghost(rank): Ghost<Seq<nat>>) -> (path:
    Vec<usize>)
    requires
        net.wf(),
        st.shaped(net.waypoints.len() as nat),
        st.rooted(start),
        st.tree(net, start, rank),
        end < net.waypoints.len(),
        st.known[end as int],
    ensures
        net.connects(path@, start, end),
        net.route_cost(path@) <= st.g[end as int],
        path@.no_duplicates(),
{
    let mut rev: Vec<usize> = Vec::new();
    let mut cur: usize = end;
    rev.push(end);
    while cur != start
        invariant
            st.shaped(net.waypoints.len() as nat),
            st.tree(net, start, rank),
            cur < net.waypoints.len(),
            st.known[cur as int],
            rev.len() > 0,
            rev[0] == end,
            rev[rev.len() - 1] == cur,
            forall|i: int|
                0 <= i < rev.len() ==> #[trigger] rev[i] < net.waypoints.len() && st.known[rev[i] as int],
            forall|i: int|
                0 <= i < rev.len() - 1 ==> #[trigger] rev[i] != start && rev[i + 1]
                    == st.from[rev[i] as int],
            forall|i: int| 0 <= i < rev.len() - 1 ==> above(st, rank, #[trigger] rev[i] as int, cur as int),
            rev@.no_duplicates(),
        decreases st.g[cur as int], rank[cur as int],
    {
        assert(st.tree_at(net, start, rank, cur as int));
        let p = st.from[cur];
        let ghost before = rev@;
        proof {
            assert(above(st, rank, cur as int, p as int));
            assert forall|i: int| 0 <= i < before.len() implies above(
                st,
                rank,
                #[trigger] before[i] as int,
                p as int,
            ) by {
                if i < before.len() - 1 {
                    assert(above(st, rank, before[i] as int, cur as int));
                }
            }
        }
        rev.push(p);
        proof {
            assert forall|i: int, j: int| 0 <= i < rev.len() && 0 <= j < rev.len() && i != j implies rev[i]
                != rev[j] by {
                if i < before.len() && j < before.len() {
                    assert(before[i] != before[j]);
                } else if i < before.len() {
                    assert(above(st, rank, before[i] as int, p as int));
                } else {
                    assert(above(st, rank, before[j] as int, p as int));
                }
            }
        }
        cur = p;
    }
    let mut path: Vec<usize> = Vec::new();
    let mut i: usize = rev.len();
    while i > 0
        invariant
            net.wf(),
            st.shaped(net.waypoints.len() as nat),
            st.rooted(start),
            st.tree(net, start, rank),
            i <= rev.len(),
            rev.len() > 0,
            rev[0] == end,
            rev[rev.len() - 1] == start,
            rev@.no_duplicates(),
            forall|k: int|
                0 <= k < rev.len() ==> #[trigger] rev[k] < net.waypoints.len() && st.known[rev[k] as int],
            forall|k: int|
                0 <= k < rev.len() - 1 ==> #[trigger] rev[k] != start && rev[k + 1]
                    == st.from[rev[k] as int],
            path.len() == rev.len() - i,
            forall|k: int| 0 <= k < path.len() ==> #[trigger] path[k] == rev[rev.len() - 1 - k],
            path.len() > 0 ==> net.is_route(path@) && net.route_cost(path@) <= st.g[path[path.len()
                - 1] as int],
        decreases i,
    {
        i -= 1;
        let x = rev[i];
        let ghost before = path@;
        path.push(x);
        proof {
            assert(path@.drop_last() =~= before);
            if before.len() > 0 {
                let p = before[before.len() - 1];
                assert(p == rev[i + 1]);
                assert(rev[i as int] != start && rev[i + 1] == st.from[rev[i as int] as int]);
                assert(st.tree_at(net, start, rank, x as int));
                assert forall|k: int| 0 <= k < path.len() - 1 implies net.linked(
                    #[trigger] path[k],
                    path[k + 1],
                ) by {
                    if k < before.len() - 1 {
                        assert(before[k] == path[k]);
                        assert(before[k + 1] == path[k + 1]);
                        assert(net.linked(before[k], before[k + 1]));
                    }
                }
                assert forall|k: int| 0 <= k < path.len() implies #[trigger] path[k]
                    < net.waypoints.len() by {
                    assert(path[k] == rev[rev.len() - 1 - k]);
                }
            } else {
                assert(x == start);
                assert(net.route_cost(path@) == 0);
            }
        }
    }
    proof {
        assert forall|a: int, b: int| 0 <= a < path.len() && 0 <= b < path.len() && a != b implies path[a]
            != path[b] by {
            assert(path[a] == rev[rev.len() - 1 - a]);
            assert(path[b] == rev[rev.len() - 1 - b]);
        }
    }
    path
}

/// The shortest route from `start` to `end`, if there is a route at all.
///
/// Hops are measured by the distance between their waypoints in fine units
/// (thousandths of a length unit), rounded up, and the search is steered by
/// the distance to `end`, rounded down. No waypoint occurs twice in the
/// route. Among waypoints that look equally promising the one listed first
/// is expanded first.
pub fn a_star(net: &Network, start: usize, end: usize) -> (r: Option<Vec<usize>>)
    requires
        net.wf(),
    ensures
        match r {
            Some(path) => {
                &&& net.connects(path@, start, end)
                &&& forall|other: Seq<usize>| #[trigger]
                    net.connects(other, start, end) ==> net.route_cost(path@) <= net.route_cost(
                        other,
                    )
                &&& path@.no_duplicates()
                &&& start == end ==> path@ == seq![start]
            },
            None => forall|other: Seq<usize>| !#[trigger] net.connects(other, start, end),
        },
{
    let n = net.waypoints.len();
    if start >= n || end >= n {
        return None;
    }
    let h = estimates(net, end);
    let mut st = fresh(n, start);
    let ghost mut rank: Seq<nat> = Seq::new(n as nat, |v: int| 0nat);
    let ghost mut seen: Set<int> = Set::empty().insert(start as int);
    let ghost big = ceiling(n as nat);
    proof {
        assert forall|v: int| 0 <= v < n implies #[trigger] st.tree_at(net, start, rank, v) by {}
        assert forall|j: int| 0 <= j < net.links.len() implies #[trigger] st.link_settled(
            net,
            j,
            -1,
        ) by {}
        assert(seen.len() == 1);
    }
    loop
        invariant
            n == net.waypoints.len(),
            start < n,
            big == ceiling(n as nat),
            h.len() == n,
            forall|v: int| 0 <= v < n ==> #[trigger] h[v] == estimate(net, end, v as usize),
            st.inv(net, start, end, rank, seen),
            st.settled(net, -1),
        decreases st.potential(big),
    {
        proof {
            lemma_seen_bound(&st, seen);
            assert(seen.len() * max_span() <= n * max_span()) by (nonlinear_arith)
                requires
                    seen.len() <= n,
            ;
        }
        match pick(&st, &h) {
            None => {
                proof {
                    assert forall|other: Seq<usize>| !#[trigger] net.connects(
                        other,
                        start,
                        end,
                    ) by {
                        if net.connects(other, start, end) {
                            lemma_frontier(&st, net, start, other);
                            if !st.known[end as int] {
                                let i = choose|i: int| on_frontier(&st, net, other, i);
                                assert(other[i] < n);
                                assert(st.open[other[i] as int]);
                            }
                        }
                    }
                }
                return None;
            },
            Some(u) => {
                if u == end {
                    let path = trace(net, &st, start, end, Ghost(rank));
                    proof {
                        if start == end {
                            if path.len() > 1 {
                                assert(path[0] == path[path.len() - 1]);
                            }
                            assert(path@ =~= seq![start]);
                        }
                        let c = net.waypoints[end as int].coords;
                        assert(norm_sq(FINE * (c.x - c.x), FINE * (c.y - c.y)) == 0) by (nonlinear_arith);
                        lemma_floor_sqrt_zero();
                        assert(h[end as int] == 0);
                        assert forall|other: Seq<usize>| #[trigger]
                            net.connects(other, start, end) implies net.route_cost(path@)
                            <= net.route_cost(other) by {
                            lemma_goal_optimal(&st, net, start, end, other);
                        }
                    }
                    return Some(path);
                }
                let ghost before = st;
                st.open[u] = false;
                proof {
                    assert(st.weights(big) =~= before.weights(big).update(
                        u as int,
                        st.weight(big, u as int),
                    ));
                    lemma_total_update(before.weights(big), u as int, st.weight(big, u as int));
                    assert forall|v: int| 0 <= v < n implies #[trigger] st.tree_at(
                        net,
                        start,
                        rank,
                        v,
                    ) by {
                        assert(before.tree_at(net, start, rank, v));
                    }
                    assert forall|j: int| 0 <= j < net.links.len() implies #[trigger] st.link_settled(
                        net,
                        j,
                        u as int,
                    ) by {
                        assert(before.link_settled(net, j, -1));
                    }
                }
                let out = expand(net, &mut st, start, end, u, Ghost(rank), Ghost(seen));
                proof {
                    rank = out.0@;
                    seen = out.1@;
                }
            },
        }
    }
}

impl Network {
    /// Total length of the hops of `route`.
    pub fn route_length(&self, route: &Vec<usize>) -> (r: u128)
        requires
            forall|i: int| 0 <= i < route.len() ==> #[trigger] route[i] < self.waypoints.len(),
        ensures
            r == self.route_cost(route@),
    {
        if route.len() == 0 {
            return 0;
        }
        let mut sum: u128 = 0;
        let mut i: usize = 1;
        proof {
            assert(route@.take(1).len() == 1);
            assert(self.route_cost(route@.take(1)) == 0);
        }
        while i < route.len()
            invariant
                1 <= i <= route.len(),
                forall|k: int| 0 <= k < route.len() ==> #[trigger] route[k] < self.waypoints.len(),
                sum == self.route_cost(route@.take(i as int)),
                sum <= i * max_span(),
            decreases route.len() - i,
        {
            let hop = distance_up(self.waypoints[route[i - 1]].coords, self.waypoints[route[i]].coords);
            proof {
                let next = route@.take(i + 1);
                assert(next.drop_last() =~= route@.take(i as int));
                assert(next[next.len() - 2] == route[i - 1]);
                assert(next[next.len() - 1] == route[i as int]);
                assert((i + 1) * max_span() == i * max_span() + max_span()) by (nonlinear_arith);
                assert(i * max_span() <= 0xffff_ffff_ffff_ffff * 0x800_0000_0000) by (nonlinear_arith)
                    requires
                        i <= 0xffff_ffff_ffff_ffff,
                        max_span() == 0x800_0000_0000,
                ;
            }
            sum = sum + hop as u128;
            i += 1;
        }
        proof {
            assert(route@.take(route.len() as int) =~= route@);
        }
        sum
    }

    /// Squared distance from the position `(x, y)` to waypoint `v`.
    pub open spec fn gap(&self, x: int, y: int, v: int) -> nat {
        norm_sq(x - self.waypoints[v].coords.x, y - self.waypoints[v].coords.y)
    }

    /// Waypoint `v` is nearest to `(x, y)`: no waypoint is nearer, and of
    /// those exactly as near it is the first in the list.
    pub open spec fn is_nearest(&self, x: int, y: int, v: int) -> bool {
        &&& 0 <= v < self.waypoints.len()
        &&& forall|w: int|
            0 <= w < self.waypoints.len() ==> self.gap(x, y, v) <= #[trigger] self.gap(x, y, w)
        &&& forall|w: int| 0 <= w < v ==> self.gap(x, y, v) < #[trigger] self.gap(x, y, w)
    }

    /// The waypoint nearest to `(x, y)`.
    pub open spec fn nearest_to(&self, x: int, y: int) -> int {
        choose|v: int| self.is_nearest(x, y, v)
    }

    /// Only one waypoint is the nearest.
    pub proof fn lemma_nearest_unique(&self, x: int, y: int, v: int, w: int)
        requires
            self.is_nearest(x, y, v),
            self.is_nearest(x, y, w),
        ensures
            v == w,
    {
        if v < w {
            assert(self.gap(x, y, w) < self.gap(x, y, v));
            assert(self.gap(x, y, v) <= self.gap(x, y, w));
        }
        if w < v {
            assert(self.gap(x, y, v) < self.gap(x, y, w));
            assert(self.gap(x, y, w) <= self.gap(x, y, v));
        }
    }

    /// The waypoint nearest to `(x, y)`, if there is any waypoint.
    fn nearest(&self, x: i64, y: i64) -> (r: Option<usize>)
        requires
            -0x1_0000_0000 <= x <= 0x1_0000_0000,
            -0x1_0000_0000 <= y <= 0x1_0000_0000,
        ensures
            match r {
                Some(v) => self.is_nearest(x as int, y as int, v as int) && v
                    == self.nearest_to(x as int, y as int),
                None => self.waypoints.len() == 0,
            },
    {
        if self.waypoints.len() == 0 {
            return None;
        }
        let mut best: usize = 0;
        let mut best_gap: u128 = length_sq(
            x - self.waypoints[0].coords.x as i64,
            y - self.waypoints[0].coords.y as i64,
        );
        let mut v: usize = 1;
        while v < self.waypoints.len()
            invariant
                1 <= v <= self.waypoints.len(),
                -0x1_0000_0000 <= x <= 0x1_0000_0000,
                -0x1_0000_0000 <= y <= 0x1_0000_0000,
                best < v,
                best_gap == self.gap(x as int, y as int, best as int),
                forall|w: int| 0 <= w < v ==> best_gap <= #[trigger] self.gap(x as int, y as int, w),
                forall|w: int| 0 <= w < best ==> best_gap < #[trigger] self.gap(x as int, y as int, w),
            decreases self.waypoints.len() - v,
        {
            let d = length_sq(
                x - self.waypoints[v].coords.x as i64,
                y - self.waypoints[v].coords.y as i64,
            );
            if d < best_gap {
                best = v;
                best_gap = d;
            }
            v += 1;
        }
        proof {
            assert(self.is_nearest(x as int, y as int, best as int));
            self.lemma_nearest_unique(
                x as int,
                y as int,
                best as int,
                self.nearest_to(x as int, y as int),
            );
        }
        Some(best)
    }
}

/// The waypoints to fly between two approach vectors: the shortest route
/// from the waypoint nearest to the head of `start` to the one nearest to the
/// tail of `end`, with the positions of its waypoints.
///
/// Fails with `ReferenceDataError` exactly when the network has no waypoint,
/// and with `RouteNotFound` exactly when it has some but no route joins the
/// two chosen ones.
pub fn get_waypoint_route(net: &Network, start: FromLoc<Point>, end: FromLoc<Point>) -> (r: Result<
    (Vec<usize>, Vec<Point>),
    RouteError,
>)
    requires
        net.wf(),
    ensures
        match r {
            Ok((route, positions)) => {
                let from = net.nearest_to(start.head_x(), start.head_y()) as usize;
                let to = net.nearest_to(end.tail.x as int, end.tail.y as int) as usize;
                &&& net.waypoints.len() > 0
                &&& net.connects(route@, from, to)
                &&& forall|other: Seq<usize>| #[trigger]
                    net.connects(other, from, to) ==> net.route_cost(route@) <= net.route_cost(
                        other,
                    )
                &&& route@.no_duplicates()
                &&& positions.len() == route.len()
                &&& forall|i: int|
                    0 <= i < route.len() ==> #[trigger] positions[i]
                        == net.waypoints[route[i] as int].coords
            },
            Err(RouteError::ReferenceDataError) => net.waypoints.len() == 0,
            Err(RouteError::RouteNotFound) => {
                let from = net.nearest_to(start.head_x(), start.head_y()) as usize;
                let to = net.nearest_to(end.tail.x as int, end.tail.y as int) as usize;
                &&& net.waypoints.len() > 0
                &&& forall|other: Seq<usize>| !#[trigger] net.connects(other, from, to)
            },
        },
{
    let hx: i64 = start.tail.x as i64 + start.vec.x as i64;
    let hy: i64 = start.tail.y as i64 + start.vec.y as i64;
    let from = match net.nearest(hx, hy) {
        Some(v) => v,
        None => {
            return Err(RouteError::ReferenceDataError);
        },
    };
    let to = match net.nearest(end.tail.x as i64, end.tail.y as i64) {
        Some(v) => v,
        None => {
            return Err(RouteError::ReferenceDataError);
        },
    };
    let route = match a_star(net, from, to) {
        Some(route) => route,
        None => {
            return Err(RouteError::RouteNotFound);
        },
    };
    let mut positions: Vec<Point> = Vec::new();
    let mut i: usize = 0;
    while i < route.len()
        invariant
            i <= route.len(),
            net.is_route(route@),
            route@.no_duplicates(),
            positions.len() == i,
            forall|k: int|
                0 <= k < i ==> #[trigger] positions[k] == net.waypoints[route[k] as int].coords,
        decreases route.len() - i,
    {
        positions.push(net.waypoints[route[i]].coords);
        i += 1;
    }
    Ok((route, positions))
}

} // verus!

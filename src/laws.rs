use vstd::prelude::*;

use crate::grid::{
    has_route_of, is_open, is_route, is_shortest, lemma_cost_nonneg, lemma_shortest_is,
    no_cheaper, reachable, route_cost, shortest, well_formed, Pos,
};

verus! {

/// The distance from an open cell to itself is zero: the ball is already there.
pub proof fn law_distance_to_self(g: Seq<Seq<usize>>, p: Pos)
    requires
        well_formed(g),
        is_open(g, p),
    ensures
        shortest(g, p, p) == 0,
{
    let only = seq![p];
    assert(is_route(g, only, p, p));
    assert(route_cost(only) == 0);
    assert(has_route_of(g, p, p, 0));
    assert forall|q: Seq<Pos>| is_route(g, q, p, p) implies route_cost(q) >= 0 by {
        lemma_cost_nonneg(q);
    }
    assert(no_cheaper(g, p, p, 0));
    lemma_shortest_is(g, p, p, 0);
}

/// Among the routes from `s` to `t`, some route costs least; the search for it
/// goes down through cheaper routes, which cannot go on forever.
proof fn lemma_least_exists(g: Seq<Seq<usize>>, s: Pos, t: Pos, p: Seq<Pos>)
    requires
        is_route(g, p, s, t),
    ensures
        exists|d: int| is_shortest(g, s, t, d),
    decreases route_cost(p),
{
    lemma_cost_nonneg(p);
    if no_cheaper(g, s, t, route_cost(p)) {
        assert(is_shortest(g, s, t, route_cost(p)));
    } else {
        let q = choose|q: Seq<Pos>| is_route(g, q, s, t) && route_cost(q) < route_cost(p);
        lemma_cost_nonneg(q);
        lemma_least_exists(g, s, t, q);
    }
}

/// Where a route from `s` to `t` exists, the distance is a non-negative number.
pub proof fn law_reachable_nonneg(g: Seq<Seq<usize>>, s: Pos, t: Pos)
    requires
        reachable(g, s, t),
    ensures
        shortest(g, s, t) >= 0,
{
    let p = choose|p: Seq<Pos>| is_route(g, p, s, t);
    lemma_least_exists(g, s, t, p);
    let d = choose|d: int| is_shortest(g, s, t, d);
    let w = choose|w: Seq<Pos>| is_route(g, w, s, t) && route_cost(w) == d;
    lemma_cost_nonneg(w);
    lemma_shortest_is(g, s, t, d);
}

/// Where no route leads from `s` to `t`, the distance is -1.
pub proof fn law_unreachable_is_minus_one(g: Seq<Seq<usize>>, s: Pos, t: Pos)
    requires
        !reachable(g, s, t),
    ensures
        shortest(g, s, t) == -1,
{
    if exists|d: int| is_shortest(g, s, t, d) {
        let d = choose|d: int| is_shortest(g, s, t, d);
        let p = choose|p: Seq<Pos>| is_route(g, p, s, t) && route_cost(p) == d;
        assert(is_route(g, p, s, t));
    }
}

} // verus!

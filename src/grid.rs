use vstd::prelude::*;

verus! {

/// A cell position: (row, column).
pub type Pos = (int, int);

/// Number of rows of a grid.
pub open spec fn row_count(g: Seq<Seq<usize>>) -> int {
    g.len() as int
}

/// Number of columns of a grid (the length of its first row).
pub open spec fn col_count(g: Seq<Seq<usize>>) -> int {
    g[0].len() as int
}

/// The longer side of a grid.
pub open spec fn longer_side(g: Seq<Seq<usize>>) -> int {
    if row_count(g) >= col_count(g) { row_count(g) } else { col_count(g) }
}

/// A grid is rectangular, with at least one row and one column.
pub open spec fn well_formed(g: Seq<Seq<usize>>) -> bool {
    &&& g.len() >= 1
    &&& g[0].len() >= 1
    &&& forall|i: int| 0 <= i < g.len() ==> #[trigger] g[i].len() == g[0].len()
}

/// The cell at `p` lies inside the grid and holds no wall (value 0).
pub open spec fn is_open(g: Seq<Seq<usize>>, p: Pos) -> bool {
    &&& 0 <= p.0 < row_count(g)
    &&& 0 <= p.1 < col_count(g)
    &&& g[p.0][p.1] == 0
}

/// The cell `i` steps away from `p` in direction `d`:
/// 0 is increasing row, 1 decreasing row, 2 increasing column, 3 decreasing column.
pub open spec fn step(p: Pos, d: int, i: int) -> Pos {
    if d == 0 {
        (p.0 + i, p.1)
    } else if d == 1 {
        (p.0 - i, p.1)
    } else if d == 2 {
        (p.0, p.1 + i)
    } else {
        (p.0, p.1 - i)
    }
}

/// A ball at `p` pushed in direction `d` rolls exactly `k` cells: the `k` cells
/// ahead of it are open and the one after them is a wall or lies outside the grid.
pub open spec fn slides(g: Seq<Seq<usize>>, p: Pos, d: int, k: int) -> bool {
    &&& 0 <= d < 4
    &&& k >= 0
    &&& forall|i: int| 1 <= i <= k ==> is_open(g, #[trigger] step(p, d, i))
    &&& !is_open(g, step(p, d, k + 1))
}

/// One move: pushed in some direction, the ball leaves `a` and comes to rest at `b`.
pub open spec fn moves(g: Seq<Seq<usize>>, a: Pos, b: Pos) -> bool {
    exists|d: int, k: int| #[trigger] slides(g, a, d, k) && k > 0 && b == step(a, d, k)
}

/// Number of unit cells between two positions along the axes.
pub open spec fn gap(a: Pos, b: Pos) -> int {
    (if a.0 >= b.0 { a.0 - b.0 } else { b.0 - a.0 }) + (if a.1 >= b.1 { a.1 - b.1 } else { b.1 - a.1 })
}

/// `p` is a sequence of resting positions from `s` to `t`, each reached from the
/// previous one by a single move.
pub open spec fn is_route(g: Seq<Seq<usize>>, p: Seq<Pos>, s: Pos, t: Pos) -> bool {
    &&& p.len() >= 1
    &&& p[0] == s
    &&& p.last() == t
    &&& forall|i: int| 0 <= i < p.len() - 1 ==> #[trigger] moves(g, p[i], p[i + 1])
}

/// Total number of unit cells rolled along a route.
pub open spec fn route_cost(p: Seq<Pos>) -> int
    decreases p.len(),
{
    if p.len() <= 1 {
        0
    } else {
        route_cost(p.drop_last()) + gap(p[p.len() - 2], p.last())
    }
}

/// Some route leads from `s` to `t`.
pub open spec fn reachable(g: Seq<Seq<usize>>, s: Pos, t: Pos) -> bool {
    exists|p: Seq<Pos>| is_route(g, p, s, t)
}

/// Some route from `s` to `t` costs exactly `d`.
pub open spec fn has_route_of(g: Seq<Seq<usize>>, s: Pos, t: Pos, d: int) -> bool {
    exists|p: Seq<Pos>| is_route(g, p, s, t) && route_cost(p) == d
}

/// No route from `s` to `t` costs less than `d`.
pub open spec fn no_cheaper(g: Seq<Seq<usize>>, s: Pos, t: Pos, d: int) -> bool {
    forall|p: Seq<Pos>| is_route(g, p, s, t) ==> route_cost(p) >= d
}

/// `d` is the cost of some route from `s` to `t`, and no route from `s` to `t` costs less.
pub open spec fn is_shortest(g: Seq<Seq<usize>>, s: Pos, t: Pos, d: int) -> bool {
    has_route_of(g, s, t, d) && no_cheaper(g, s, t, d)
}

/// The least cost of a route from `s` to `t`, or -1 where no route exists.
pub open spec fn shortest(g: Seq<Seq<usize>>, s: Pos, t: Pos) -> int {
    if exists|d: int| is_shortest(g, s, t, d) {
        choose|d: int| is_shortest(g, s, t, d)
    } else {
        -1
    }
}

/// A route never costs a negative amount.
pub proof fn lemma_cost_nonneg(p: Seq<Pos>)
    ensures
        route_cost(p) >= 0,
    decreases p.len(),
{
    if p.len() > 1 {
        lemma_cost_nonneg(p.drop_last());
    }
}

/// A move leaves an open cell for another open cell, in a straight line
/// shorter than the grid's longer side.
pub proof fn lemma_move_gap(g: Seq<Seq<usize>>, a: Pos, b: Pos)
    requires
        is_open(g, a),
        moves(g, a, b),
    ensures
        is_open(g, b),
        0 < gap(a, b) < longer_side(g),
{
    let (d, k) = choose|d: int, k: int| #[trigger] slides(g, a, d, k) && k > 0 && b == step(a, d, k);
    assert(is_open(g, step(a, d, k)));
}

/// A move ends on an open cell.
pub proof fn lemma_move_lands(g: Seq<Seq<usize>>, a: Pos, b: Pos)
    requires
        moves(g, a, b),
    ensures
        is_open(g, b),
{
    let (d, k) = choose|d: int, k: int| #[trigger] slides(g, a, d, k) && k > 0 && b == step(a, d, k);
    assert(is_open(g, step(a, d, k)));
}

/// A route from an open cell ends on an open cell.
pub proof fn lemma_route_open(g: Seq<Seq<usize>>, p: Seq<Pos>, s: Pos, t: Pos)
    requires
        is_open(g, s),
        is_route(g, p, s, t),
    ensures
        is_open(g, t),
{
    if p.len() > 1 {
        let n = p.len() - 2;
        assert(moves(g, p[n], p[n + 1]));
        lemma_move_lands(g, p[n], t);
    }
}

/// Dropping the last position of a longer route leaves a route to the position
/// before it, from which one move reaches the end.
pub proof fn lemma_route_prefix(g: Seq<Seq<usize>>, p: Seq<Pos>, s: Pos, t: Pos)
    requires
        is_route(g, p, s, t),
        p.len() > 1,
    ensures
        is_route(g, p.drop_last(), s, p[p.len() - 2]),
        moves(g, p[p.len() - 2], t),
        route_cost(p) == route_cost(p.drop_last()) + gap(p[p.len() - 2], t),
{
    let q = p.drop_last();
    let n = p.len() - 2;
    assert(moves(g, p[n], p[n + 1]));
    assert forall|i: int| 0 <= i < q.len() - 1 implies #[trigger] moves(g, q[i], q[i + 1]) by {
        assert(moves(g, p[i], p[i + 1]));
    }
}

/// A route to `x` followed by a move from `x` to `y` is a route to `y`.
pub proof fn lemma_route_extend(g: Seq<Seq<usize>>, p: Seq<Pos>, s: Pos, x: Pos, y: Pos)
    requires
        is_route(g, p, s, x),
        moves(g, x, y),
    ensures
        is_route(g, p.push(y), s, y),
        route_cost(p.push(y)) == route_cost(p) + gap(x, y),
{
    let q = p.push(y);
    assert(q.drop_last() == p);
    assert forall|i: int| 0 <= i < q.len() - 1 implies #[trigger] moves(g, q[i], q[i + 1]) by {
        if i < p.len() - 1 {
            assert(moves(g, p[i], p[i + 1]));
        }
    }
}

/// A route that costs `d` to `x`, and a move on to `y`, give a route to `y`
/// that costs `d` plus the move.
pub proof fn lemma_has_route_extend(g: Seq<Seq<usize>>, s: Pos, x: Pos, y: Pos, d: int)
    requires
        has_route_of(g, s, x, d),
        moves(g, x, y),
    ensures
        has_route_of(g, s, y, d + gap(x, y)),
{
    let p = choose|p: Seq<Pos>| is_route(g, p, s, x) && route_cost(p) == d;
    lemma_route_extend(g, p, s, x, y);
}

/// Pushed in one direction, the ball rolls one distance only.
pub proof fn lemma_slide_unique(g: Seq<Seq<usize>>, p: Pos, d: int)
    ensures
        forall|k1: int, k2: int| slides(g, p, d, k1) && slides(g, p, d, k2) ==> k1 == k2,
{
    assert forall|k1: int, k2: int| slides(g, p, d, k1) && slides(g, p, d, k2) implies k1 == k2 by {
        if k1 < k2 {
            assert(is_open(g, step(p, d, k1 + 1)));
        } else if k2 < k1 {
            assert(is_open(g, step(p, d, k2 + 1)));
        }
    }
}

/// The least cost, where there is one, is unique, and `shortest` names it.
pub proof fn lemma_shortest_is(g: Seq<Seq<usize>>, s: Pos, t: Pos, d: int)
    requires
        is_shortest(g, s, t, d),
    ensures
        shortest(g, s, t) == d,
{
    let e = choose|e: int| is_shortest(g, s, t, e);
    assert(is_shortest(g, s, t, e));
    let pd = choose|p: Seq<Pos>| is_route(g, p, s, t) && route_cost(p) == d;
    let pe = choose|p: Seq<Pos>| is_route(g, p, s, t) && route_cost(p) == e;
    assert(route_cost(pd) >= e);
    assert(route_cost(pe) >= d);
}

} // verus!

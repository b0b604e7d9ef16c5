use vstd::prelude::*;

use crate::grid::{
    col_count, gap, has_route_of, is_open, is_route, lemma_cost_nonneg, lemma_has_route_extend,
    lemma_move_gap, lemma_move_lands, lemma_route_open, lemma_route_prefix, longer_side, moves, no_cheaper,
    route_cost, row_count, well_formed, Pos,
};

verus! {

/// Marker for a cell that no route has reached so far.
pub const UNREACHED: u64 = u64::MAX;

/// A table has `rows` rows of `cols` entries each.
pub open spec fn shaped<T>(t: Seq<Seq<T>>, rows: int, cols: int) -> bool {
    &&& t.len() == rows
    &&& forall|i: int| 0 <= i < rows ==> #[trigger] t[i].len() == cols
}

/// Row `i`, column `j` lies inside the grid.
pub open spec fn in_grid(g: Seq<Seq<usize>>, i: int, j: int) -> bool {
    0 <= i < row_count(g) && 0 <= j < col_count(g)
}

/// Every reached cell is open, its distance is at most `cap`, and some route
/// from `s` costs exactly that distance.
pub open spec fn reached_ok(g: Seq<Seq<usize>>, s: Pos, d: Seq<Seq<u64>>, cap: int) -> bool {
    forall|i: int, j: int|
        in_grid(g, i, j) && #[trigger] d[i][j] != UNREACHED ==> {
            &&& is_open(g, (i, j))
            &&& d[i][j] <= cap
            &&& has_route_of(g, s, (i, j), d[i][j] as int)
        }
}

/// Every settled cell is reached, and no route from `s` to it costs less than
/// its distance.
pub open spec fn settled_ok(g: Seq<Seq<usize>>, s: Pos, d: Seq<Seq<u64>>, f: Seq<Seq<bool>>) -> bool {
    forall|i: int, j: int|
        in_grid(g, i, j) && #[trigger] f[i][j] ==> d[i][j] != UNREACHED && no_cheaper(
            g,
            s,
            (i, j),
            d[i][j] as int,
        )
}

/// Every cell one move away from `x` is reached, at a distance no greater than
/// that of `x` plus the move.
pub open spec fn relaxed_from(g: Seq<Seq<usize>>, d: Seq<Seq<u64>>, x: Pos) -> bool {
    forall|y: Pos|
        #[trigger] moves(g, x, y) ==> d[y.0][y.1] != UNREACHED && d[y.0][y.1] <= d[x.0][x.1] + gap(
            x,
            y,
        )
}

/// Every settled cell has had each of its moves taken into account.
pub open spec fn relaxed_ok(g: Seq<Seq<usize>>, d: Seq<Seq<u64>>, f: Seq<Seq<bool>>) -> bool {
    forall|i: int, j: int| in_grid(g, i, j) && #[trigger] f[i][j] ==> relaxed_from(g, d, (i, j))
}

/// `d1` differs from `d0` only where a move from `v` gives a cell a smaller
/// distance, which is then that of `v` plus the move.
pub open spec fn lowered_via(g: Seq<Seq<usize>>, d0: Seq<Seq<u64>>, d1: Seq<Seq<u64>>, v: Pos) -> bool {
    forall|i: int, j: int|
        in_grid(g, i, j) ==> {
            ||| #[trigger] d1[i][j] == d0[i][j]
            ||| moves(g, v, (i, j)) && d1[i][j] == d0[v.0][v.1] + gap(v, (i, j)) && d1[i][j]
                < d0[i][j]
        }
}

/// Number of unsettled entries in a row.
pub open spec fn unsettled_in_row(row: Seq<bool>) -> nat
    decreases row.len(),
{
    if row.len() == 0 {
        0
    } else {
        unsettled_in_row(row.drop_last()) + if row.last() {
            0nat
        } else {
            1nat
        }
    }
}

/// Number of unsettled entries in a table.
pub open spec fn unsettled(f: Seq<Seq<bool>>) -> nat
    decreases f.len(),
{
    if f.len() == 0 {
        0
    } else {
        unsettled(f.drop_last()) + unsettled_in_row(f.last())
    }
}

/// Settling an unsettled entry of a row leaves one fewer.
pub proof fn lemma_row_settle(row: Seq<bool>, c: int)
    requires
        0 <= c < row.len(),
        !row[c],
    ensures
        unsettled_in_row(row.update(c, true)) + 1 == unsettled_in_row(row),
    decreases row.len(),
{
    let u = row.update(c, true);
    if c == row.len() - 1 {
        assert(u.drop_last() == row.drop_last());
    } else {
        assert(u.drop_last() == row.drop_last().update(c, true));
        lemma_row_settle(row.drop_last(), c);
    }
}

/// Settling an unsettled entry of a table leaves one fewer.
pub proof fn lemma_settle_count(f: Seq<Seq<bool>>, r: int, c: int)
    requires
        0 <= r < f.len(),
        0 <= c < f[r].len(),
        !f[r][c],
    ensures
        unsettled(f.update(r, f[r].update(c, true))) + 1 == unsettled(f),
    decreases f.len(),
{
    let u = f.update(r, f[r].update(c, true));
    if r == f.len() - 1 {
        assert(u.drop_last() == f.drop_last());
        lemma_row_settle(f[r], c);
    } else {
        assert(u.drop_last() == f.drop_last().update(r, f[r].update(c, true)));
        lemma_settle_count(f.drop_last(), r, c);
    }
}

/// A row with nothing settled counts all its entries.
pub proof fn lemma_fresh_row(row: Seq<bool>)
    requires
        forall|j: int| 0 <= j < row.len() ==> !#[trigger] row[j],
    ensures
        unsettled_in_row(row) == row.len(),
    decreases row.len(),
{
    if row.len() > 0 {
        lemma_fresh_row(row.drop_last());
    }
}

/// A table with nothing settled counts all its entries.
pub proof fn lemma_fresh_count(f: Seq<Seq<bool>>, cols: int)
    requires
        cols >= 0,
        shaped(f, f.len() as int, cols),
        forall|i: int, j: int| 0 <= i < f.len() && 0 <= j < cols ==> !#[trigger] f[i][j],
    ensures
        unsettled(f) == f.len() * cols,
    decreases f.len(),
{
    if f.len() > 0 {
        let n = f.len() - 1;
        lemma_fresh_count(f.drop_last(), cols);
        assert(f.last().len() == cols);
        assert forall|j: int| 0 <= j < f.last().len() implies !#[trigger] f.last()[j] by {
            assert(!f[n][j]);
        }
        lemma_fresh_row(f.last());
        assert((n + 1) * cols == n * cols + cols) by (nonlinear_arith);
    }
}

/// While some cell is unsettled and `v` is an unsettled cell of least distance,
/// every route from `s` that ends on an unsettled cell costs at least the
/// distance of `v`.
pub proof fn lemma_unsettled_end(
    g: Seq<Seq<usize>>,
    s: Pos,
    d: Seq<Seq<u64>>,
    f: Seq<Seq<bool>>,
    v: Pos,
    q: Seq<Pos>,
    t: Pos,
)
    requires
        well_formed(g),
        shaped(d, row_count(g), col_count(g)),
        shaped(f, row_count(g), col_count(g)),
        is_open(g, s),
        d[s.0][s.1] == 0,
        settled_ok(g, s, d, f),
        relaxed_ok(g, d, f),
        in_grid(g, v.0, v.1),
        forall|i: int, j: int| in_grid(g, i, j) && !f[i][j] ==> d[v.0][v.1] <= #[trigger] d[i][j],
        is_route(g, q, s, t),
        in_grid(g, t.0, t.1),
        !f[t.0][t.1],
    ensures
        route_cost(q) >= d[v.0][v.1],
    decreases q.len(),
{
    if q.len() == 1 {
        assert(d[v.0][v.1] <= d[s.0][s.1]);
    } else {
        let x = q[q.len() - 2];
        let p = q.drop_last();
        lemma_route_prefix(g, q, s, t);
        lemma_route_open(g, p, s, x);
        lemma_move_gap(g, x, t);
        if f[x.0][x.1] {
            assert(relaxed_from(g, d, x));
            assert(d[t.0][t.1] <= d[x.0][x.1] + gap(x, t));
            assert(no_cheaper(g, s, x, d[x.0][x.1] as int));
            assert(route_cost(p) >= d[x.0][x.1]);
        } else {
            lemma_unsettled_end(g, s, d, f, v, p, x);
        }
    }
}

/// Once no unsettled cell is reached, every cell that a route from `s` leads to
/// is settled.
pub proof fn lemma_route_settled(
    g: Seq<Seq<usize>>,
    s: Pos,
    d: Seq<Seq<u64>>,
    f: Seq<Seq<bool>>,
    q: Seq<Pos>,
    t: Pos,
)
    requires
        well_formed(g),
        shaped(d, row_count(g), col_count(g)),
        shaped(f, row_count(g), col_count(g)),
        is_open(g, s),
        d[s.0][s.1] == 0,
        relaxed_ok(g, d, f),
        forall|i: int, j: int| in_grid(g, i, j) && #[trigger] d[i][j] != UNREACHED ==> f[i][j],
        is_route(g, q, s, t),
    ensures
        in_grid(g, t.0, t.1),
        f[t.0][t.1],
    decreases q.len(),
{
    if q.len() == 1 {
        assert(d[s.0][s.1] != UNREACHED);
    } else {
        let x = q[q.len() - 2];
        let p = q.drop_last();
        lemma_route_prefix(g, q, s, t);
        lemma_route_open(g, p, s, x);
        lemma_move_gap(g, x, t);
        lemma_route_settled(g, s, d, f, p, x);
        assert(relaxed_from(g, d, x));
        assert(d[t.0][t.1] != UNREACHED);
    }
}

/// Settling `v`, an unsettled cell that no route reaches more cheaply, and then
/// lowering the distances of the cells one move away from it keeps every
/// invariant of the search, with room for one more move in the bound.
pub proof fn lemma_settle_step(
    g: Seq<Seq<usize>>,
    s: Pos,
    d0: Seq<Seq<u64>>,
    f0: Seq<Seq<bool>>,
    d1: Seq<Seq<u64>>,
    v: Pos,
    cap: int,
)
    requires
        well_formed(g),
        shaped(d0, row_count(g), col_count(g)),
        shaped(f0, row_count(g), col_count(g)),
        shaped(d1, row_count(g), col_count(g)),
        is_open(g, s),
        d0[s.0][s.1] == 0,
        reached_ok(g, s, d0, cap),
        settled_ok(g, s, d0, f0),
        relaxed_ok(g, d0, f0),
        in_grid(g, v.0, v.1),
        d0[v.0][v.1] != UNREACHED,
        no_cheaper(g, s, v, d0[v.0][v.1] as int),
        lowered_via(g, d0, d1, v),
        relaxed_from(g, d1, v),
    ensures
        d1[s.0][s.1] == 0,
        d1[v.0][v.1] == d0[v.0][v.1],
        reached_ok(g, s, d1, cap + longer_side(g)),
        settled_ok(g, s, d1, f0.update(v.0, f0[v.0].update(v.1, true))),
        relaxed_ok(g, d1, f0.update(v.0, f0[v.0].update(v.1, true))),
{
    let f1 = f0.update(v.0, f0[v.0].update(v.1, true));
    let dv = d0[v.0][v.1];
    assert(is_open(g, v));
    assert forall|i: int, j: int| in_grid(g, i, j) && #[trigger] d1[i][j] != d0[i][j] implies {
        &&& moves(g, v, (i, j))
        &&& d1[i][j] == dv + gap(v, (i, j))
        &&& d1[i][j] < d0[i][j]
        &&& is_open(g, (i, j))
        &&& 0 < gap(v, (i, j)) < longer_side(g)
        &&& has_route_of(g, s, (i, j), d1[i][j] as int)
    } by {
        lemma_move_gap(g, v, (i, j));
        lemma_has_route_extend(g, s, v, (i, j), dv as int);
    }
    assert(d1[v.0][v.1] == dv);
    assert(d1[s.0][s.1] == 0);
    assert forall|i: int, j: int| in_grid(g, i, j) && #[trigger] d1[i][j] != UNREACHED implies {
        &&& is_open(g, (i, j))
        &&& d1[i][j] <= cap + longer_side(g)
        &&& has_route_of(g, s, (i, j), d1[i][j] as int)
    } by {
        if d1[i][j] == d0[i][j] {
            assert(d0[i][j] != UNREACHED);
        }
    }
    assert forall|i: int, j: int| in_grid(g, i, j) && #[trigger] f1[i][j] implies d1[i][j]
        != UNREACHED && no_cheaper(g, s, (i, j), d1[i][j] as int) by {
        if (i, j) != v {
            assert(f0[i][j]);
            if d1[i][j] != d0[i][j] {
                let p = choose|p: Seq<Pos>|
                    is_route(g, p, s, (i, j)) && route_cost(p) == d1[i][j] as int;
                assert(no_cheaper(g, s, (i, j), d0[i][j] as int));
                assert(route_cost(p) >= d0[i][j]);
            }
        }
    }
    assert forall|i: int, j: int| in_grid(g, i, j) && #[trigger] f1[i][j] implies relaxed_from(
        g,
        d1,
        (i, j),
    ) by {
        if (i, j) != v {
            assert(f0[i][j]);
            assert(relaxed_from(g, d0, (i, j)));
            assert(d1[i][j] == d0[i][j]);
            assert forall|y: Pos| #[trigger] moves(g, (i, j), y) implies d1[y.0][y.1] != UNREACHED
                && d1[y.0][y.1] <= d1[i][j] + gap((i, j), y) by {
                lemma_move_lands(g, (i, j), y);
                assert(d1[y.0][y.1] <= d0[y.0][y.1]);
            }
        }
    }
}

} // verus!

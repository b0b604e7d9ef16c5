use vstd::prelude::*;

use crate::grid::{
    col_count, gap, has_route_of, is_open, is_route, is_shortest, lemma_move_gap, lemma_shortest_is,
    lemma_slide_unique, longer_side, moves, reachable, route_cost,
    row_count, shortest, slides, step, well_formed, Pos,
};
use crate::laws::law_unreachable_is_minus_one;
use crate::search::{
    in_grid, lemma_fresh_count, lemma_route_settled, lemma_settle_count, lemma_settle_step,
    lemma_unsettled_end, lowered_via, reached_ok, relaxed_from, relaxed_ok, settled_ok, shaped,
    unsettled, UNREACHED,
};

verus! {

/// The grid held by a maze given as rows of cells.
pub open spec fn cells(maze: Seq<Vec<usize>>) -> Seq<Seq<usize>> {
    maze.map_values(|row: Vec<usize>| row@)
}

/// Solver for a maze in which a ball, once pushed, rolls until a wall or the
/// edge of the grid stops it.
#[derive(Debug, PartialEq)]
pub struct Solution {}

impl Solution {
    /// The least number of cells that the ball must roll, over any sequence of
    /// pushes, to come to rest on `dest` when it starts at rest on `start`; -1
    /// when no sequence of pushes brings it to rest there. A cell holding 0 is
    /// open, any other value is a wall.
    pub fn shortest_distance(
        start: &(usize, usize),
        dest: &(usize, usize),
        maze: &Vec<Vec<usize>>,
    ) -> (r: i32)
        requires
            well_formed(cells(maze@)),
            is_open(cells(maze@), (start.0 as int, start.1 as int)),
            is_open(cells(maze@), (dest.0 as int, dest.1 as int)),
            row_count(cells(maze@)) * col_count(cells(maze@)) * longer_side(cells(maze@))
                <= i32::MAX,
        ensures
            r == shortest(
                cells(maze@),
                (start.0 as int, start.1 as int),
                (dest.0 as int, dest.1 as int),
            ),
            r >= 0 <==> reachable(
                cells(maze@),
                (start.0 as int, start.1 as int),
                (dest.0 as int, dest.1 as int),
            ),
            r == -1 <==> !reachable(
                cells(maze@),
                (start.0 as int, start.1 as int),
                (dest.0 as int, dest.1 as int),
            ),
            r <= row_count(cells(maze@)) * col_count(cells(maze@)) * longer_side(cells(maze@)),
    {
        let ghost g = cells(maze@);
        let ghost s: Pos = (start.0 as int, start.1 as int);
        let ghost t: Pos = (dest.0 as int, dest.1 as int);
        let ghost m = longer_side(g);
        let rows = maze.len();
        let cols = maze[0].len();
        assert(g.len() == rows && g[0].len() == cols);
        let (sr, sc) = *start;
        let mut dist = filled(rows, cols, UNREACHED);
        let mut done = filled(rows, cols, false);
        proof {
            lemma_fresh_count(table(done@), cols as int);
        }
        let ghost d_init = table(dist@);
        assert(d_init[sr as int] == dist@[sr as int]@);
        dist[sr][sc] = 0;
        assert(table(dist@) == d_init.update(sr as int, d_init[sr as int].update(sc as int, 0)));
        proof {
            let only = seq![s];
            assert(is_route(g, only, s, s));
            assert(route_cost(only) == 0);
            assert(has_route_of(g, s, s, 0));
        }
        let ghost mut cap: int = 0;
        let ghost mut settled: int = 0;
        loop
            invariant
                g == cells(maze@),
                well_formed(g),
                rows == row_count(g),
                cols == col_count(g),
                m == longer_side(g),
                row_count(g) * col_count(g) * m <= i32::MAX,
                s == (sr as int, sc as int),
                is_open(g, s),
                shaped(table(dist@), rows as int, cols as int),
                shaped(table(done@), rows as int, cols as int),
                table(dist@)[s.0][s.1] == 0,
                reached_ok(g, s, table(dist@), cap),
                settled_ok(g, s, table(dist@), table(done@)),
                relaxed_ok(g, table(dist@), table(done@)),
                settled + unsettled(table(done@)) == rows * cols,
                0 <= settled,
                cap == settled * m,
            ensures
                shaped(table(dist@), rows as int, cols as int),
                shaped(table(done@), rows as int, cols as int),
                table(dist@)[s.0][s.1] == 0,
                reached_ok(g, s, table(dist@), cap),
                settled_ok(g, s, table(dist@), table(done@)),
                relaxed_ok(g, table(dist@), table(done@)),
                0 <= settled <= rows * cols,
                cap == settled * m,
                forall|i: int, j: int|
                    in_grid(g, i, j) && #[trigger] table(dist@)[i][j] != UNREACHED
                        ==> table(done@)[i][j],
            decreases unsettled(table(done@)),
        {
            let next = closest_unsettled(&dist, &done, rows, cols);
            let (vr, vc) = match next {
                None => {
                    break;
                },
                Some(p) => p,
            };
            let ghost v: Pos = (vr as int, vc as int);
            let ghost d0 = table(dist@);
            let ghost f0 = table(done@);
            let ghost dv = d0[v.0][v.1] as int;
            proof {
                assert forall|q: Seq<Pos>| is_route(g, q, s, v) implies route_cost(q) >= dv by {
                    lemma_unsettled_end(g, s, d0, f0, v, q, v);
                }
                lemma_settle_count(f0, v.0, v.1);
                assert(settled + 1 <= rows * cols);
                assert((settled + 1) * m <= rows * cols * m) by (nonlinear_arith)
                    requires settled + 1 <= rows * cols, m >= 0;
                assert((settled + 1) * m == settled * m + m) by (nonlinear_arith);
            }
            assert(f0[vr as int] == done@[vr as int]@);
            done[vr][vc] = true;
            assert(table(done@) == f0.update(v.0, f0[v.0].update(v.1, true)));
            for dir in 0..4
                invariant
                    g == cells(maze@),
                    well_formed(g),
                    v == (vr as int, vc as int),
                    is_open(g, v),
                    shaped(table(dist@), rows as int, cols as int),
                    rows == row_count(g),
                    cols == col_count(g),
                    m == longer_side(g),
                    dv == d0[v.0][v.1],
                    0 <= dv,
                    dv + m <= i32::MAX,
                    table(dist@)[v.0][v.1] == dv,
                    lowered_via(g, d0, table(dist@), v),
                    forall|dd: int, k: int|
                        0 <= dd < dir && #[trigger] slides(g, v, dd, k) && k > 0 ==>
                            table(dist@)[step(v, dd, k).0][step(v, dd, k).1] <= dv + k,
            {
                let ghost d1 = table(dist@);
                relax(maze, &mut dist, vr, vc, dir);
                proof {
                    let d2 = table(dist@);
                    assert forall|i: int, j: int| in_grid(g, i, j) implies d2[i][j] <= d1[i][j] && {
                        ||| #[trigger] d2[i][j] == d0[i][j]
                        ||| moves(g, v, (i, j)) && d2[i][j] == d0[v.0][v.1] + gap(v, (i, j))
                            && d2[i][j] < d0[i][j]
                    } by {
                        if d2[i][j] != d1[i][j] {
                            assert(moves(g, v, (i, j)));
                        }
                    }
                    if d2[v.0][v.1] != d1[v.0][v.1] {
                        lemma_move_gap(g, v, v);
                    }
                    assert forall|dd: int, k: int|
                        0 <= dd < dir + 1 && #[trigger] slides(g, v, dd, k) && k > 0 implies
                            d2[step(v, dd, k).0][step(v, dd, k).1] <= dv + k by {
                        assert(is_open(g, step(v, dd, k)));
                    }
                }
            }
            proof {
                let d1 = table(dist@);
                assert forall|y: Pos| #[trigger] moves(g, v, y) implies d1[y.0][y.1] != UNREACHED
                    && d1[y.0][y.1] <= d1[v.0][v.1] + gap(v, y) by {
                    let (dd, k) = choose|dd: int, k: int|
                        #[trigger] slides(g, v, dd, k) && k > 0 && y == step(v, dd, k);
                    lemma_move_gap(g, v, y);
                }
                assert(relaxed_from(g, d1, v));
                lemma_settle_step(g, s, d0, f0, d1, v, cap);
                cap = cap + m;
                settled = settled + 1;
            }
        }
        let ghost d = table(dist@);
        let ghost f = table(done@);
        assert(d[dest.0 as int] == dist@[dest.0 as int]@);
        let found = dist[dest.0][dest.1];
        proof {
            assert(settled * m <= rows * cols * m) by (nonlinear_arith)
                requires settled <= rows * cols, m >= 0;
        }
        if found == UNREACHED {
            proof {
                if reachable(g, s, t) {
                    let q = choose|q: Seq<Pos>| is_route(g, q, s, t);
                    lemma_route_settled(g, s, d, f, q, t);
                    assert(settled_ok(g, s, d, f));
                }
                law_unreachable_is_minus_one(g, s, t);
            }
            -1
        } else {
            proof {
                assert(f[t.0][t.1]);
                assert(is_shortest(g, s, t, found as int));
                lemma_shortest_is(g, s, t, found as int);
            }
            found as i32
        }
    }

    /// A 5 by 5 maze used in examples: a wall near the top, a short wall in the
    /// middle, and a barrier across the fourth row with a gap in its centre.
    pub fn test_fixture_1() -> (maze: Vec<Vec<usize>>)
        ensures
            cells(maze@) == sample_maze(),
    {
        let maze = vec![
            vec![0, 0, 1, 0, 0],
            vec![0, 0, 0, 0, 0],
            vec![0, 0, 0, 1, 0],
            vec![1, 1, 0, 1, 1],
            vec![0, 0, 0, 0, 0],
        ];
        assert(cells(maze@) =~= sample_maze());
        maze
    }

    /// The same maze as `test_fixture_1`, as a fresh value.
    pub fn test_fixture_2() -> (maze: Vec<Vec<usize>>)
        ensures
            cells(maze@) == sample_maze(),
    {
        let maze = vec![
            vec![0, 0, 1, 0, 0],
            vec![0, 0, 0, 0, 0],
            vec![0, 0, 0, 1, 0],
            vec![1, 1, 0, 1, 1],
            vec![0, 0, 0, 0, 0],
        ];
        assert(cells(maze@) =~= sample_maze());
        maze
    }
}

/// The sample maze, row by row.
pub open spec fn sample_maze() -> Seq<Seq<usize>> {
    seq![
        seq![0usize, 0, 1, 0, 0],
        seq![0usize, 0, 0, 0, 0],
        seq![0usize, 0, 0, 1, 0],
        seq![1usize, 1, 0, 1, 1],
        seq![0usize, 0, 0, 0, 0],
    ]
}

/// The values held by a table of rows.
pub open spec fn table<T>(t: Seq<Vec<T>>) -> Seq<Seq<T>> {
    t.map_values(|row: Vec<T>| row@)
}

/// Builds a table of `rows` rows of `cols` entries, each equal to `v`.
fn filled<T: Copy>(rows: usize, cols: usize, v: T) -> (t: Vec<Vec<T>>)
    ensures
        shaped(table(t@), rows as int, cols as int),
        forall|i: int, j: int| 0 <= i < rows && 0 <= j < cols ==> table(t@)[i][j] == v,
{
    let mut t: Vec<Vec<T>> = Vec::new();
    for i in 0..rows
        invariant
            t@.len() == i,
            forall|a: int| 0 <= a < i ==> (#[trigger] t@[a])@.len() == cols,
            forall|a: int, j: int| 0 <= a < i && 0 <= j < cols ==> t@[a]@[j] == v,
    {
        let mut row: Vec<T> = Vec::new();
        for j in 0..cols
            invariant
                row@.len() == j,
                forall|b: int| 0 <= b < j ==> row@[b] == v,
        {
            row.push(v);
        }
        t.push(row);
    }
    t
}

/// Lowers the tentative distance of the cell where a ball rolling from `v` in
/// direction `dir` comes to rest, if that direction moves it at all and the
/// route through `v` is cheaper than what the cell holds.
fn relax(maze: &Vec<Vec<usize>>, dist: &mut Vec<Vec<u64>>, vr: usize, vc: usize, dir: usize)
    requires
        well_formed(cells(maze@)),
        is_open(cells(maze@), (vr as int, vc as int)),
        dir < 4,
        shaped(table(old(dist)@), row_count(cells(maze@)), col_count(cells(maze@))),
        table(old(dist)@)[vr as int][vc as int] != UNREACHED,
        table(old(dist)@)[vr as int][vc as int] + longer_side(cells(maze@)) <= u64::MAX,
    ensures
        shaped(table(final(dist)@), row_count(cells(maze@)), col_count(cells(maze@))),
        lowered_via(cells(maze@), table(old(dist)@), table(final(dist)@), (vr as int, vc as int)),
        forall|k: int|
            #![trigger slides(cells(maze@), (vr as int, vc as int), dir as int, k)]
            slides(cells(maze@), (vr as int, vc as int), dir as int, k) && k > 0 ==> {
                let y = step((vr as int, vc as int), dir as int, k);
                table(final(dist)@)[y.0][y.1] <= table(old(dist)@)[vr as int][vc as int] + k
            },
{
    let ghost g = cells(maze@);
    let ghost v: Pos = (vr as int, vc as int);
    let k = slide(maze, vr, vc, dir);
    proof {
        lemma_slide_unique(g, v, dir as int);
    }
    if k == 0 {
        return;
    }
    let rows = maze.len();
    let cols = maze[0].len();
    assert(g.len() == rows && g[0].len() == cols);
    assert(is_open(g, step(v, dir as int, k as int)));
    let (yr, yc) = if dir == 0 {
        (vr + k, vc)
    } else if dir == 1 {
        (vr - k, vc)
    } else if dir == 2 {
        (vr, vc + k)
    } else {
        (vr, vc - k)
    };
    let ghost before = table(dist@);
    assert(before[vr as int] == dist@[vr as int]@);
    assert(before[yr as int] == dist@[yr as int]@);
    let dv = dist[vr][vc];
    let through = dv + k as u64;
    assert(slides(g, v, dir as int, k as int));
    assert(moves(g, v, (yr as int, yc as int)));
    if through < dist[yr][yc] {
        dist[yr][yc] = through;
        assert(table(dist@) == before.update(yr as int, before[yr as int].update(yc as int, through)));
    }
}

/// Finds an unsettled cell of least tentative distance. Returns `None` when
/// every reached cell is settled.
fn closest_unsettled(
    dist: &Vec<Vec<u64>>,
    done: &Vec<Vec<bool>>,
    rows: usize,
    cols: usize,
) -> (r: Option<(usize, usize)>)
    requires
        shaped(table(dist@), rows as int, cols as int),
        shaped(table(done@), rows as int, cols as int),
    ensures
        match r {
            Some((br, bc)) => {
                &&& br < rows
                &&& bc < cols
                &&& !table(done@)[br as int][bc as int]
                &&& table(dist@)[br as int][bc as int] != UNREACHED
                &&& forall|i: int, j: int|
                    0 <= i < rows && 0 <= j < cols && !table(done@)[i][j]
                        ==> table(dist@)[br as int][bc as int] <= #[trigger] table(dist@)[i][j]
            },
            None => forall|i: int, j: int|
                0 <= i < rows && 0 <= j < cols && #[trigger] table(dist@)[i][j] != UNREACHED
                    ==> table(done@)[i][j],
        },
{
    let ghost d = table(dist@);
    let ghost f = table(done@);
    let mut best: u64 = UNREACHED;
    let mut br: usize = 0;
    let mut bc: usize = 0;
    for i in 0..rows
        invariant
            d == table(dist@),
            f == table(done@),
            shaped(d, rows as int, cols as int),
            shaped(f, rows as int, cols as int),
            best != UNREACHED ==> br < rows && bc < cols && !f[br as int][bc as int]
                && d[br as int][bc as int] == best,
            forall|a: int, b: int|
                0 <= a < i && 0 <= b < cols && !f[a][b] ==> best <= #[trigger] d[a][b],
    {
        assert(d[i as int] == dist@[i as int]@ && f[i as int] == done@[i as int]@);
        for j in 0..cols
            invariant
                d == table(dist@),
                f == table(done@),
                shaped(d, rows as int, cols as int),
                shaped(f, rows as int, cols as int),
                i < rows,
                d[i as int] == dist@[i as int]@,
                f[i as int] == done@[i as int]@,
                best != UNREACHED ==> br < rows && bc < cols && !f[br as int][bc as int]
                && d[br as int][bc as int] == best,
                forall|a: int, b: int|
                    0 <= b < cols && (0 <= a < i || (a == i && b < j)) && !f[a][b]
                        ==> best <= #[trigger] d[a][b],
        {
            if !done[i][j] && dist[i][j] < best {
                best = dist[i][j];
                br = i;
                bc = j;
            }
        }
    }
    if best == UNREACHED {
        None
    } else {
        Some((br, bc))
    }
}

/// Rolls the ball from the open cell `(r, c)` in direction `d` and returns how
/// many cells it travels before something stops it.
fn slide(maze: &Vec<Vec<usize>>, r: usize, c: usize, d: usize) -> (k: usize)
    requires
        well_formed(cells(maze@)),
        is_open(cells(maze@), (r as int, c as int)),
        d < 4,
    ensures
        slides(cells(maze@), (r as int, c as int), d as int, k as int),
        is_open(cells(maze@), step((r as int, c as int), d as int, k as int)),
        k < longer_side(cells(maze@)),
{
    let ghost g = cells(maze@);
    let ghost p = (r as int, c as int);
    let rows = maze.len();
    let cols = maze[0].len();
    assert(g[0].len() == cols);
    let mut k: usize = 0;
    loop
        invariant
            g == cells(maze@),
            p == (r as int, c as int),
            well_formed(g),
            rows == row_count(g),
            cols == col_count(g),
            d < 4,
            is_open(g, p),
            is_open(g, step(p, d as int, k as int)),
            k < longer_side(g),
            forall|i: int| 1 <= i <= k ==> is_open(g, #[trigger] step(p, d as int, i)),
        ensures
            slides(g, p, d as int, k as int),
            is_open(g, step(p, d as int, k as int)),
        decreases longer_side(g) - k,
    {
        let ahead = if d == 0 {
            if r + k + 1 < rows {
                assert(g[r + k + 1] == maze@[r + k + 1]@);
                maze[r + k + 1][c] == 0
            } else {
                false
            }
        } else if d == 1 {
            if k < r {
                assert(g[r - k - 1] == maze@[r - k - 1]@);
                maze[r - k - 1][c] == 0
            } else {
                false
            }
        } else if d == 2 {
            assert(g[r as int] == maze@[r as int]@);
            if c + k + 1 < cols {
                maze[r][c + k + 1] == 0
            } else {
                false
            }
        } else {
            assert(g[r as int] == maze@[r as int]@);
            if k < c {
                maze[r][c - k - 1] == 0
            } else {
                false
            }
        };
        assert(ahead == is_open(g, step(p, d as int, k + 1)));
        if !ahead {
            break;
        }
        k = k + 1;
    }
    k
}

} // verus!

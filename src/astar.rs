use vstd::prelude::*;
use crate::utils::{Block, Grid, Vector};
use vstd::set_lib::{lemma_int_range, lemma_len_subset, set_int_range};

verus! {

// ---------------------------------------------------------------------------
// The model: wrap-around geometry and the grid
// ---------------------------------------------------------------------------

/// Whether `p` lies on a field of `cols` columns and `rows` rows.
pub open spec fn in_bounds(p: Vector, cols: int, rows: int) -> bool {
    0 <= p.x < cols && 0 <= p.y < rows
}

/// Distance between two coordinates on a circle of length `n`.
pub open spec fn wrap_dist(a: int, b: int, n: int) -> int {
    let d = if a >= b { a - b } else { b - a };
    if d <= n - d { d } else { n - d }
}

/// The wrap-around Manhattan distance between `a` and `b`.
pub open spec fn heuristic_spec(a: Vector, b: Vector, cols: int, rows: int) -> int {
    wrap_dist(a.x as int, b.x as int, cols) + wrap_dist(a.y as int, b.y as int, rows)
}

/// The next coordinate on a circle of length `n`.
pub open spec fn inc_wrap(a: int, n: int) -> int {
    if a + 1 >= n { 0 } else { a + 1 }
}

/// The previous coordinate on a circle of length `n`.
pub open spec fn dec_wrap(a: int, n: int) -> int {
    if a <= 0 { n - 1 } else { a - 1 }
}

/// The cell one step from `p` in direction `k`: 0 is `+y`, 1 is `-y`,
/// 2 is `+x`, 3 is `-x`, each wrapped onto the field.
pub open spec fn step(p: Vector, k: int, cols: int, rows: int) -> Vector {
    if k == 0 {
        Vector { x: p.x, y: inc_wrap(p.y as int, rows) as i32 }
    } else if k == 1 {
        Vector { x: p.x, y: dec_wrap(p.y as int, rows) as i32 }
    } else if k == 2 {
        Vector { x: inc_wrap(p.x as int, cols) as i32, y: p.y }
    } else {
        Vector { x: dec_wrap(p.x as int, cols) as i32, y: p.y }
    }
}

/// Whether `b` is one orthogonal, wrap-aware step from `a`.
pub open spec fn adjacent(a: Vector, b: Vector, cols: int, rows: int) -> bool {
    b == step(a, 0, cols, rows) || b == step(a, 1, cols, rows) || b == step(a, 2, cols, rows)
        || b == step(a, 3, cols, rows)
}

/// Number of columns of a grid.
pub open spec fn cols_of(g: Seq<Vec<Block>>) -> int {
    if g.len() == 0 { 0 } else { g[0]@.len() as int }
}

/// The cell of `g` at `p`.
pub open spec fn cell(g: Seq<Vec<Block>>, p: Vector) -> Block {
    g[p.y as int]@[p.x as int]
}

/// Whether the cell at `p` is an obstacle.
pub open spec fn is_blocked(g: Seq<Vec<Block>>, p: Vector) -> bool {
    cell(g, p).is_wall
}

/// A grid is well formed when it has at least one row and one column, all
/// rows have the same length, each cell records its own position, and the
/// search values fit their integer types.
pub open spec fn grid_wf(g: Seq<Vec<Block>>) -> bool {
    &&& g.len() > 0
    &&& cols_of(g) > 0
    &&& g.len() * cols_of(g) <= 32767
    &&& forall|y: int| 0 <= y < g.len() ==> #[trigger] g[y]@.len() == cols_of(g)
    &&& forall|y: int, x: int|
        0 <= y < g.len() && 0 <= x < cols_of(g) ==> #[trigger] g[y]@[x].pos == (Vector {
            x: x as i32,
            y: y as i32,
        })
}

/// Two grids have the same shape and the same obstacles.
pub open spec fn same_layout(a: Seq<Vec<Block>>, b: Seq<Vec<Block>>) -> bool {
    &&& a.len() == b.len()
    &&& forall|y: int| 0 <= y < a.len() ==> #[trigger] a[y]@.len() == b[y]@.len()
    &&& forall|y: int, x: int|
        0 <= y < a.len() && 0 <= x < a[y]@.len() ==> (#[trigger] a[y]@[x]).pos == b[y]@[x].pos
            && a[y]@[x].is_wall == b[y]@[x].is_wall
}

/// `path` leads from `start` to `dest` over free cells, listed from the
/// destination back to the first step: `path[0]` is `dest`, the last element
/// is one step from `start`, and each element is one step from the one after
/// it. The empty path leads from a cell to itself.
pub open spec fn is_route(
    g: Seq<Vec<Block>>,
    start: Vector,
    dest: Vector,
    path: Seq<Vector>,
) -> bool {
    let cols = cols_of(g);
    let rows = g.len() as int;
    if path.len() == 0 {
        start == dest
    } else {
        &&& path[0] == dest
        &&& adjacent(start, path[path.len() - 1], cols, rows)
        &&& forall|i: int| 0 <= i < path.len() - 1 ==> adjacent(#[trigger] path[i + 1], path[i], cols, rows)
        &&& forall|i: int| 0 <= i < path.len() ==> in_bounds(#[trigger] path[i], cols, rows)
        &&& forall|i: int| 0 <= i < path.len() ==> !is_blocked(g, #[trigger] path[i])
    }
}

/// Some route leads from `start` to `dest`.
pub open spec fn reachable(g: Seq<Vec<Block>>, start: Vector, dest: Vector) -> bool {
    exists|path: Seq<Vector>| is_route(g, start, dest, path)
}

/// Position of `p` in a row-major numbering of the cells.
pub open spec fn idx(p: Vector, cols: int) -> int {
    p.y as int * cols + p.x as int
}

/// The row-major numbering is in range and tells cells apart.
proof fn lemma_idx(p: Vector, q: Vector, cols: int, rows: int)
    requires
        in_bounds(p, cols, rows),
        in_bounds(q, cols, rows),
    ensures
        0 <= idx(p, cols) < rows * cols,
        p != q ==> idx(p, cols) != idx(q, cols),
{
    let px = p.x as int;
    let py = p.y as int;
    let qx = q.x as int;
    let qy = q.y as int;
    assert(0 <= py * cols + px < rows * cols) by (nonlinear_arith)
        requires
            0 <= px < cols,
            0 <= py < rows,
    ;
    if py < qy {
        assert(py * cols + px < qy * cols + qx) by (nonlinear_arith)
            requires
                0 <= px < cols,
                0 <= qx,
                py < qy,
        ;
    } else if qy < py {
        assert(qy * cols + qx < py * cols + px) by (nonlinear_arith)
            requires
                0 <= qx < cols,
                0 <= px,
                qy < py,
        ;
    }
}

/// A cell that the search has reached: finalised, or waiting in the open set.
pub open spec fn discovered(g: Seq<Vec<Block>>, open: Seq<Vector>, p: Vector) -> bool {
    cell(g, p).is_closed || open.contains(p)
}

/// Every free cell among the first `k` neighbours of `p` has been reached,
/// and those not yet finalised cost at most one step more than `p`.
pub open spec fn around(g: Seq<Vec<Block>>, open: Seq<Vector>, p: Vector, k: int) -> bool {
    forall|j: int|
        0 <= j < k && !is_blocked(g, #[trigger] step(p, j, cols_of(g), g.len() as int)) ==> {
            let v = step(p, j, cols_of(g), g.len() as int);
            &&& discovered(g, open, v)
            &&& !cell(g, v).is_closed ==> cell(g, v).g_val <= cell(g, p).g_val + 1
        }
}

/// The cell at `p` was reached from a finalised neighbour, one step further
/// from the start than it, and is free.
pub open spec fn parent_ok(g: Seq<Vec<Block>>, p: Vector) -> bool {
    let q = cell(g, p).parent_pos;
    &&& in_bounds(q, cols_of(g), g.len() as int)
    &&& cell(g, q).is_closed
    &&& adjacent(q, p, cols_of(g), g.len() as int)
    &&& cell(g, p).g_val == cell(g, q).g_val + 1
    &&& !is_blocked(g, p)
}

/// What holds of the grid, the open set and the numbers of the finalised
/// cells between two expansions of the search from `start` toward `dest`.
/// Every finalised cell but `ex` has all its free neighbours reached.
pub open spec fn search_inv(
    g: Seq<Vec<Block>>,
    g0: Seq<Vec<Block>>,
    open: Seq<Vector>,
    closed: Set<int>,
    start: Vector,
    dest: Vector,
    ex: Vector,
) -> bool {
    let cols = cols_of(g);
    let rows = g.len() as int;
    &&& grid_wf(g)
    &&& same_layout(g, g0)
    &&& in_bounds(start, cols, rows)
    &&& in_bounds(dest, cols, rows)
    &&& !cell(g, dest).is_closed
    &&& closed.finite()
    &&& forall|p: Vector|
        in_bounds(p, cols, rows) ==> (closed.contains(idx(p, cols)) <==> #[trigger] cell(
            g,
            p,
        ).is_closed)
    &&& forall|i: int| closed.contains(i) ==> 0 <= i < rows * cols
    &&& open.no_duplicates()
    &&& forall|i: int|
        0 <= i < open.len() ==> in_bounds(#[trigger] open[i], cols, rows) && !cell(
            g,
            open[i],
        ).is_closed
    &&& discovered(g, open, start)
    &&& cell(g, start).g_val == 0
    &&& forall|p: Vector|
        in_bounds(p, cols, rows) && #[trigger] discovered(g, open, p) ==> cell(g, p).g_val
            <= closed.len()
    &&& forall|p: Vector|
        in_bounds(p, cols, rows) && #[trigger] discovered(g, open, p) && p != start
            ==> parent_ok(g, p)
    &&& forall|p: Vector|
        in_bounds(p, cols, rows) && #[trigger] cell(g, p).is_closed && p != ex ==> around(
            g,
            open,
            p,
            4,
        )
    &&& forall|p: Vector|
        in_bounds(p, cols, rows) && #[trigger] discovered(g, open, p) ==> cell(g, p).f_val
            == cell(g, p).g_val + heuristic_spec(p, dest, cols, rows)
    &&& !cell(g, start).is_closed ==> open == seq![start]
    &&& forall|c: Vector, path: Seq<Vector>|
        in_bounds(c, cols, rows) && cell(g, c).is_closed && #[trigger] is_route(g0, start, c, path)
            ==> cell(g, c).g_val <= path.len()
}

/// Sharing shape and obstacles is transitive.
proof fn lemma_same_layout_trans(a: Seq<Vec<Block>>, b: Seq<Vec<Block>>, c: Seq<Vec<Block>>)
    requires
        same_layout(a, b),
        same_layout(b, c),
    ensures
        same_layout(a, c),
{
    assert forall|y: int, x: int| 0 <= y < a.len() && 0 <= x < a[y]@.len() implies (
    #[trigger] a[y]@[x]).pos == c[y]@[x].pos && a[y]@[x].is_wall == c[y]@[x].is_wall by {
        assert(b[y]@[x].pos == c[y]@[x].pos);
    }
}

/// A free cell one step from a finalised cell is finalised too, once the open
/// set is empty.
proof fn lemma_step_closed(
    g: Seq<Vec<Block>>,
    g0: Seq<Vec<Block>>,
    closed: Set<int>,
    start: Vector,
    dest: Vector,
    a: Vector,
    b: Vector,
)
    requires
        search_inv(g, g0, Seq::empty(), closed, start, dest, dest),
        in_bounds(a, cols_of(g), g.len() as int),
        cell(g, a).is_closed,
        adjacent(a, b, cols_of(g), g.len() as int),
        !is_blocked(g, b),
    ensures
        cell(g, b).is_closed,
{
    let cols = cols_of(g);
    let rows = g.len() as int;
    let e = Seq::<Vector>::empty();
    assert(around(g, e, a, 4));
    if b == step(a, 0, cols, rows) {
        assert(discovered(g, e, step(a, 0, cols, rows)));
    } else if b == step(a, 1, cols, rows) {
        assert(discovered(g, e, step(a, 1, cols, rows)));
    } else if b == step(a, 2, cols, rows) {
        assert(discovered(g, e, step(a, 2, cols, rows)));
    } else {
        assert(discovered(g, e, step(a, 3, cols, rows)));
    }
    assert(!e.contains(b));
}

/// Every cell of a route from `start` is finalised once the open set is
/// empty, from the `i`-th on.
proof fn lemma_route_closed(
    g: Seq<Vec<Block>>,
    g0: Seq<Vec<Block>>,
    closed: Set<int>,
    start: Vector,
    dest: Vector,
    path: Seq<Vector>,
    i: int,
)
    requires
        search_inv(g, g0, Seq::empty(), closed, start, dest, dest),
        is_route(g0, start, dest, path),
        0 <= i < path.len(),
    ensures
        cell(g, path[i]).is_closed,
    decreases path.len() - i,
{
    let e = Seq::<Vector>::empty();
    assert(discovered(g, e, start));
    assert(!e.contains(start));
    let p = path[i];
    assert(in_bounds(p, cols_of(g), g.len() as int));
    assert(!is_blocked(g0, p));
    assert(g[p.y as int]@[p.x as int].is_wall == g0[p.y as int]@[p.x as int].is_wall);
    if i == path.len() - 1 {
        lemma_step_closed(g, g0, closed, start, dest, start, p);
    } else {
        lemma_route_closed(g, g0, closed, start, dest, path, i + 1);
        lemma_step_closed(g, g0, closed, start, dest, path[i + 1], p);
    }
}

/// Once the open set is empty, no route leads to the destination.
proof fn lemma_exhausted(
    g: Seq<Vec<Block>>,
    g0: Seq<Vec<Block>>,
    closed: Set<int>,
    start: Vector,
    dest: Vector,
)
    requires
        search_inv(g, g0, Seq::empty(), closed, start, dest, dest),
    ensures
        !reachable(g0, start, dest),
{
    if reachable(g0, start, dest) {
        let path = choose|path: Seq<Vector>| is_route(g0, start, dest, path);
        let e = Seq::<Vector>::empty();
        assert(discovered(g, e, start));
        assert(!e.contains(start));
        if path.len() == 0 {
            assert(start == dest);
        } else {
            lemma_route_closed(g, g0, closed, start, dest, path, 0);
        }
    }
}

/// The cell of a route nearest the start, counting from index `i` down,
/// that is not finalised, when all beyond `i` are.
proof fn lemma_last_open(g: Seq<Vec<Block>>, path: Seq<Vector>, i: int) -> (j: int)
    requires
        0 <= i < path.len(),
        !cell(g, path[0]).is_closed,
        forall|t: int| i < t < path.len() ==> cell(g, #[trigger] path[t]).is_closed,
    ensures
        0 <= j <= i,
        !cell(g, path[j]).is_closed,
        forall|t: int| j < t < path.len() ==> cell(g, #[trigger] path[t]).is_closed,
    decreases i,
{
    if i == 0 || !cell(g, path[i]).is_closed {
        i
    } else {
        lemma_last_open(g, path, i - 1)
    }
}

/// The open cell of smallest `f` costs no more than any route to it: some
/// cell of the route waits in the open set with an `f` no larger than the
/// route's length plus the heuristic of the chosen cell.
proof fn lemma_pop_optimal(
    g: Seq<Vec<Block>>,
    g0: Seq<Vec<Block>>,
    open: Seq<Vector>,
    closed: Set<int>,
    start: Vector,
    dest: Vector,
    i: int,
    path: Seq<Vector>,
)
    requires
        search_inv(g, g0, open, closed, start, dest, dest),
        0 <= i < open.len(),
        forall|j: int|
            0 <= j < open.len() ==> cell(g, open[i]).f_val <= cell(g, #[trigger] open[j]).f_val,
        is_route(g0, start, open[i], path),
    ensures
        cell(g, open[i]).g_val <= path.len(),
{
    let u = open[i];
    let cols = cols_of(g);
    let rows = g.len() as int;
    lemma_dims(g);
    assert(cols_of(g0) == cols);
    assert(open.contains(u));
    assert(in_bounds(u, cols, rows));
    if u == start {
        return;
    }
    if !cell(g, start).is_closed {
        assert(open[i] == start);
    }
    let n = path.len() as int;
    let j = lemma_last_open(g, path, n - 1);
    let v = path[j];
    assert(in_bounds(v, cols, rows));
    assert(!is_blocked(g0, v));
    assert(g[v.y as int]@[v.x as int].is_wall == g0[v.y as int]@[v.x as int].is_wall);
    let w = if j == n - 1 {
        start
    } else {
        path[j + 1]
    };
    if j < n - 1 {
        assert(adjacent(path[j + 1], path[j], cols, rows));
        assert(in_bounds(path[j + 1], cols, rows));
        lemma_route_tail(g0, start, u, path, j + 1);
        assert(is_route(g0, start, w, path.subrange(j + 1, n)));
        assert(cell(g, w).g_val <= n - j - 1);
    }
    assert(cell(g, w).is_closed);
    assert(w != dest);
    assert(around(g, open, w, 4));
    assert(adjacent(w, v, cols, rows));
    assert(discovered(g, open, v) && cell(g, v).g_val <= cell(g, w).g_val + 1) by {
        if v == step(w, 0, cols, rows) {
        } else if v == step(w, 1, cols, rows) {
        } else if v == step(w, 2, cols, rows) {
        } else {
            assert(v == step(w, 3, cols, rows));
        }
    }
    let q = choose|q: int| 0 <= q < open.len() && open[q] == v;
    assert(cell(g, u).f_val <= cell(g, open[q]).f_val);
    assert(discovered(g, open, u));
    assert(grid_wf(g0)) by {
        assert forall|y: int| 0 <= y < g0.len() implies #[trigger] g0[y]@.len() == cols_of(g0) by {
            assert(g[y]@.len() == g0[y]@.len());
        }
        assert forall|y: int, x: int|
            0 <= y < g0.len() && 0 <= x < cols_of(g0) implies #[trigger] g0[y]@[x].pos == (Vector {
                x: x as i32,
                y: y as i32,
            }) by {
            assert(g[y]@[x].pos == g0[y]@[x].pos);
        }
    }
    lemma_route_suffix(g0, start, u, path, j, dest);
}

/// Each dimension of a well-formed grid fits the number of cells.
proof fn lemma_dims(g: Seq<Vec<Block>>)
    requires
        grid_wf(g),
    ensures
        g.len() <= 32767,
        cols_of(g) <= 32767,
        g.len() + cols_of(g) <= g.len() * cols_of(g) + 1,
{
    let r = g.len() as int;
    let c = cols_of(g);
    assert(r <= r * c) by (nonlinear_arith)
        requires
            c >= 1,
            r >= 1,
    ;
    assert(c <= r * c) by (nonlinear_arith)
        requires
            c >= 1,
            r >= 1,
    ;
    assert(r + c <= r * c + 1) by (nonlinear_arith)
        requires
            c >= 1,
            r >= 1,
    ;
}

/// A step from a cell of the field stays on the field.
proof fn lemma_step_in_bounds(p: Vector, k: int, cols: int, rows: int)
    requires
        in_bounds(p, cols, rows),
        cols <= 32767,
        rows <= 32767,
    ensures
        in_bounds(step(p, k, cols, rows), cols, rows),
{
}

// ---------------------------------------------------------------------------
// Executable functions
// ---------------------------------------------------------------------------

/// The wrap-around Manhattan distance between two cells of the field: per
/// axis the smaller of the straight and the wrapped distance.
pub fn calc_herustic(position: Vector, destination: Vector, cols: i32, rows: i32) -> (r: i32)
    requires
        in_bounds(position, cols as int, rows as int),
        in_bounds(destination, cols as int, rows as int),
    ensures
        r == heuristic_spec(position, destination, cols as int, rows as int),
{
    let dx: i32 = if position.x >= destination.x {
        position.x - destination.x
    } else {
        destination.x - position.x
    };
    let dy: i32 = if position.y >= destination.y {
        position.y - destination.y
    } else {
        destination.y - position.y
    };
    let dx_wrap: i32 = cols - dx;
    let dy_wrap: i32 = rows - dy;
    let min_dx: i32 = if dx <= dx_wrap { dx } else { dx_wrap };
    let min_dy: i32 = if dy <= dy_wrap { dy } else { dy_wrap };
    min_dx + min_dy
}

/// The cell one step from `position` in direction `k` (see [`step`]).
pub fn step_position(position: Vector, k: usize, cols: i32, rows: i32) -> (r: Vector)
    requires
        in_bounds(position, cols as int, rows as int),
        k < 4,
    ensures
        r == step(position, k as int, cols as int, rows as int),
        in_bounds(r, cols as int, rows as int),
{
    if k == 0 {
        Vector { x: position.x, y: if position.y + 1 >= rows { 0 } else { position.y + 1 } }
    } else if k == 1 {
        Vector { x: position.x, y: if position.y <= 0 { rows - 1 } else { position.y - 1 } }
    } else if k == 2 {
        Vector { x: if position.x + 1 >= cols { 0 } else { position.x + 1 }, y: position.y }
    } else {
        Vector { x: if position.x <= 0 { cols - 1 } else { position.x - 1 }, y: position.y }
    }
}

/// The free cells among the first `k` neighbours of `p`, in direction order.
pub open spec fn free_neighbours(g: Seq<Vec<Block>>, p: Vector, k: int) -> Seq<Block>
    decreases k,
{
    if k <= 0 {
        Seq::empty()
    } else {
        let c = cell(g, step(p, k - 1, cols_of(g), g.len() as int));
        if c.is_wall {
            free_neighbours(g, p, k - 1)
        } else {
            free_neighbours(g, p, k - 1).push(c)
        }
    }
}

/// The free cells one step from `position`, in the order `+y`, `-y`, `+x`,
/// `-x`.
pub fn get_neighbours(map: &Grid, position: Vector) -> (r: Vec<Block>)
    requires
        grid_wf(map@),
        in_bounds(position, cols_of(map@), map@.len() as int),
    ensures
        r@ == free_neighbours(map@, position, 4),
{
    proof {
        lemma_dims(map@);
    }
    let rows: i32 = map.len() as i32;
    let cols: i32 = map[0].len() as i32;
    let mut neigh: Vec<Block> = Vec::new();
    let mut k: usize = 0;
    while k < 4
        invariant
            grid_wf(map@),
            in_bounds(position, cols_of(map@), map@.len() as int),
            rows == map@.len(),
            cols == cols_of(map@),
            k <= 4,
            neigh@ == free_neighbours(map@, position, k as int),
        decreases 4 - k,
    {
        let n = step_position(position, k, cols, rows);
        let b = map[n.y as usize][n.x as usize];
        if !b.is_wall {
            neigh.push(b);
        }
        k = k + 1;
    }
    neigh
}

/// The wrap-around distance is symmetric: `heuristic(a, b) == heuristic(b, a)`.
pub proof fn lemma_heuristic_symmetric(a: Vector, b: Vector, cols: int, rows: int)
    ensures
        heuristic_spec(a, b, cols, rows) == heuristic_spec(b, a, cols, rows),
{
}

/// Stepping off an edge of the field arrives at the opposite edge: west of
/// column 0 is column `cols - 1`, east of column `cols - 1` is column 0, and
/// the same holds of rows.
pub proof fn lemma_wrap_adjacency(x: int, y: int, cols: int, rows: int)
    requires
        0 <= x < cols <= 32767,
        0 <= y < rows <= 32767,
    ensures
        step(Vector { x: 0, y: y as i32 }, 3, cols, rows) == (Vector {
            x: (cols - 1) as i32,
            y: y as i32,
        }),
        step(Vector { x: (cols - 1) as i32, y: y as i32 }, 2, cols, rows) == (Vector {
            x: 0,
            y: y as i32,
        }),
        step(Vector { x: x as i32, y: 0 }, 1, cols, rows) == (Vector {
            x: x as i32,
            y: (rows - 1) as i32,
        }),
        step(Vector { x: x as i32, y: (rows - 1) as i32 }, 0, cols, rows) == (Vector {
            x: x as i32,
            y: 0,
        }),
{
}

/// The direction, among the four, that brings `a` one step nearer to `d`:
/// along `x` while the columns differ, then along `y`.
pub open spec fn toward(a: Vector, d: Vector, cols: int, rows: int) -> int {
    if a.x != d.x {
        if wrap_dist(inc_wrap(a.x as int, cols), d.x as int, cols) < wrap_dist(
            a.x as int,
            d.x as int,
            cols,
        ) {
            2
        } else {
            3
        }
    } else {
        if wrap_dist(inc_wrap(a.y as int, rows), d.y as int, rows) < wrap_dist(
            a.y as int,
            d.y as int,
            rows,
        ) {
            0
        } else {
            1
        }
    }
}

/// A route from `a` to `d` of at most `n` steps in the layout of
/// [`is_route`], each step taken [`toward`] `d`.
pub open spec fn route_toward(a: Vector, d: Vector, cols: int, rows: int, n: nat) -> Seq<Vector>
    decreases n,
{
    if n == 0 || a == d {
        Seq::empty()
    } else {
        let b = step(a, toward(a, d, cols, rows), cols, rows);
        route_toward(b, d, cols, rows, (n - 1) as nat).push(b)
    }
}

/// On a circle, one of the two steps from `a != d` shortens the distance to
/// `d` by exactly one.
proof fn lemma_wrap_dist_toward(a: int, d: int, n: int)
    requires
        0 <= a < n,
        0 <= d < n,
        a != d,
    ensures
        wrap_dist(inc_wrap(a, n), d, n) < wrap_dist(a, d, n) ==> wrap_dist(inc_wrap(a, n), d, n)
            == wrap_dist(a, d, n) - 1,
        wrap_dist(inc_wrap(a, n), d, n) >= wrap_dist(a, d, n) ==> wrap_dist(dec_wrap(a, n), d, n)
            == wrap_dist(a, d, n) - 1,
{
}

/// A step [`toward`] `d` lowers the heuristic by one.
proof fn lemma_toward(a: Vector, d: Vector, cols: int, rows: int)
    requires
        in_bounds(a, cols, rows),
        in_bounds(d, cols, rows),
        cols <= 32767,
        rows <= 32767,
        a != d,
    ensures
        in_bounds(step(a, toward(a, d, cols, rows), cols, rows), cols, rows),
        heuristic_spec(step(a, toward(a, d, cols, rows), cols, rows), d, cols, rows)
            == heuristic_spec(a, d, cols, rows) - 1,
{
    if a.x != d.x {
        lemma_wrap_dist_toward(a.x as int, d.x as int, cols);
    } else {
        lemma_wrap_dist_toward(a.y as int, d.y as int, rows);
    }
}

/// On a grid without obstacles, [`route_toward`] is a route of exactly the
/// heuristic's length.
proof fn lemma_route_toward(g: Seq<Vec<Block>>, a: Vector, d: Vector)
    requires
        grid_wf(g),
        in_bounds(a, cols_of(g), g.len() as int),
        in_bounds(d, cols_of(g), g.len() as int),
        forall|p: Vector| in_bounds(p, cols_of(g), g.len() as int) ==> !#[trigger] is_blocked(g, p),
    ensures
        ({
            let r = route_toward(
                a,
                d,
                cols_of(g),
                g.len() as int,
                heuristic_spec(a, d, cols_of(g), g.len() as int) as nat,
            );
            is_route(g, a, d, r) && r.len() == heuristic_spec(a, d, cols_of(g), g.len() as int)
        }),
    decreases heuristic_spec(a, d, cols_of(g), g.len() as int),
{
    let cols = cols_of(g);
    let rows = g.len() as int;
    lemma_dims(g);
    let h = heuristic_spec(a, d, cols, rows);
    if a == d {
        return;
    }
    assert(h > 0);
    lemma_toward(a, d, cols, rows);
    let k = toward(a, d, cols, rows);
    let b = step(a, k, cols, rows);
    lemma_route_toward(g, b, d);
    let rb = route_toward(b, d, cols, rows, (h - 1) as nat);
    let r = route_toward(a, d, cols, rows, h as nat);
    assert(r == rb.push(b));
    assert(adjacent(a, b, cols, rows));
    if rb.len() > 0 {
        assert(rb[0] == d);
        assert(r[0] == d);
    } else {
        assert(b == d);
    }
    assert forall|i: int| 0 <= i < r.len() - 1 implies adjacent(#[trigger] r[i + 1], r[i], cols, rows) by {
        if i + 1 < rb.len() {
            assert(r[i + 1] == rb[i + 1]);
            assert(r[i] == rb[i]);
        } else {
            assert(r[i + 1] == b);
            assert(r[i] == rb[rb.len() - 1]);
        }
    }
    assert forall|i: int| 0 <= i < r.len() implies in_bounds(#[trigger] r[i], cols, rows) && !is_blocked(g, r[i]) by {
        if i < rb.len() {
            assert(r[i] == rb[i]);
        }
    }
}

/// `path` is a route from `start` to `dest` and no route is shorter.
pub open spec fn is_shortest_route(
    g: Seq<Vec<Block>>,
    start: Vector,
    dest: Vector,
    path: Seq<Vector>,
) -> bool {
    &&& is_route(g, start, dest, path)
    &&& forall|other: Seq<Vector>| #[trigger] is_route(g, start, dest, other) ==> path.len() <= other.len()
}

/// On a grid without obstacles, a shortest route is exactly as long as the
/// wrap-around Manhattan distance between its ends.
pub proof fn lemma_shortest_on_free_grid(
    g: Seq<Vec<Block>>,
    start: Vector,
    dest: Vector,
    path: Seq<Vector>,
)
    requires
        grid_wf(g),
        in_bounds(start, cols_of(g), g.len() as int),
        in_bounds(dest, cols_of(g), g.len() as int),
        forall|p: Vector| in_bounds(p, cols_of(g), g.len() as int) ==> !#[trigger] is_blocked(g, p),
        is_shortest_route(g, start, dest, path),
    ensures
        path.len() == heuristic_spec(start, dest, cols_of(g), g.len() as int),
{
    lemma_route_toward(g, start, dest);
    let h = heuristic_spec(start, dest, cols_of(g), g.len() as int);
    let r = route_toward(start, dest, cols_of(g), g.len() as int, h as nat);
    assert(is_route(g, start, dest, r));
    lemma_heuristic_admissible(g, start, dest, path);
}

/// One step changes the distance to a fixed point on a circle by at most one.
proof fn lemma_wrap_dist_step(a: int, d: int, n: int)
    requires
        0 <= a < n,
        0 <= d < n,
    ensures
        wrap_dist(a, d, n) <= wrap_dist(inc_wrap(a, n), d, n) + 1,
        wrap_dist(a, d, n) <= wrap_dist(dec_wrap(a, n), d, n) + 1,
{
}

/// The heuristic is consistent: it drops by at most one along a step.
proof fn lemma_heuristic_step(a: Vector, b: Vector, d: Vector, cols: int, rows: int)
    requires
        in_bounds(a, cols, rows),
        in_bounds(d, cols, rows),
        cols <= 32767,
        rows <= 32767,
        adjacent(a, b, cols, rows),
    ensures
        heuristic_spec(a, d, cols, rows) <= heuristic_spec(b, d, cols, rows) + 1,
{
    lemma_wrap_dist_step(a.x as int, d.x as int, cols);
    lemma_wrap_dist_step(a.y as int, d.y as int, rows);
}

/// Along a route, the `i`-th cell from the destination is at most `i`
/// farther from any cell `t` by the heuristic than the destination is.
proof fn lemma_route_suffix(
    g: Seq<Vec<Block>>,
    start: Vector,
    dest: Vector,
    path: Seq<Vector>,
    i: int,
    t: Vector,
)
    requires
        grid_wf(g),
        in_bounds(t, cols_of(g), g.len() as int),
        is_route(g, start, dest, path),
        0 <= i < path.len(),
    ensures
        heuristic_spec(path[i], t, cols_of(g), g.len() as int) <= heuristic_spec(
            path[0],
            t,
            cols_of(g),
            g.len() as int,
        ) + i,
    decreases i,
{
    lemma_dims(g);
    if i > 0 {
        lemma_route_suffix(g, start, dest, path, i - 1, t);
        let j = i - 1;
        assert(adjacent(path[j + 1], path[j], cols_of(g), g.len() as int));
        assert(in_bounds(path[i], cols_of(g), g.len() as int));
        lemma_heuristic_step(path[i], path[i - 1], t, cols_of(g), g.len() as int);
    }
}

/// The part of a route from its `t`-th cell on is a route to that cell.
proof fn lemma_route_tail(g: Seq<Vec<Block>>, start: Vector, dest: Vector, path: Seq<Vector>, t: int)
    requires
        is_route(g, start, dest, path),
        0 <= t < path.len(),
    ensures
        is_route(g, start, path[t], path.subrange(t, path.len() as int)),
{
    let s = path.subrange(t, path.len() as int);
    assert(s[s.len() - 1] == path[path.len() - 1]);
    assert forall|i: int| 0 <= i < s.len() - 1 implies adjacent(
        #[trigger] s[i + 1],
        s[i],
        cols_of(g),
        g.len() as int,
    ) by {
        assert(s[i + 1] == path[(t + i) + 1]);
        assert(s[i] == path[t + i]);
    }
    assert forall|i: int| 0 <= i < s.len() implies in_bounds(
        #[trigger] s[i],
        cols_of(g),
        g.len() as int,
    ) && !is_blocked(g, s[i]) by {
        assert(s[i] == path[t + i]);
    }
}

/// The heuristic never overestimates: every route from `start` to `dest`
/// takes at least `heuristic(start, dest)` steps, whatever the obstacles.
pub proof fn lemma_heuristic_admissible(
    g: Seq<Vec<Block>>,
    start: Vector,
    dest: Vector,
    path: Seq<Vector>,
)
    requires
        grid_wf(g),
        in_bounds(start, cols_of(g), g.len() as int),
        in_bounds(dest, cols_of(g), g.len() as int),
        is_route(g, start, dest, path),
    ensures
        heuristic_spec(start, dest, cols_of(g), g.len() as int) <= path.len(),
{
    lemma_dims(g);
    if path.len() > 0 {
        lemma_route_suffix(g, start, dest, path, path.len() - 1, dest);
        lemma_heuristic_step(start, path[path.len() - 1], dest, cols_of(g), g.len() as int);
    }
}

/// Writes `b` into the cell at `p`, leaving every other cell as it was.
fn set_block(map: &mut Grid, p: Vector, b: Block)
    requires
        grid_wf(old(map)@),
        in_bounds(p, cols_of(old(map)@), old(map)@.len() as int),
        b.pos == p,
        b.is_wall == cell(old(map)@, p).is_wall,
    ensures
        grid_wf(final(map)@),
        same_layout(final(map)@, old(map)@),
        final(map)@.len() == old(map)@.len(),
        cols_of(final(map)@) == cols_of(old(map)@),
        cell(final(map)@, p) == b,
        forall|q: Vector|
            in_bounds(q, cols_of(old(map)@), old(map)@.len() as int) && q != p ==> #[trigger] cell(
                final(map)@,
                q,
            ) == cell(old(map)@, q),
{
    proof {
        lemma_dims(old(map)@);
    }
    map[p.y as usize][p.x as usize] = b;
    assert forall|q: Vector|
        in_bounds(q, cols_of(old(map)@), old(map)@.len() as int) && q != p implies #[trigger] cell(
            map@,
            q,
        ) == cell(old(map)@, q) by {
        if q.y != p.y {
        } else {
            assert(q.x != p.x);
        }
    }
    assert forall|y: int, x: int|
        0 <= y < map@.len() && 0 <= x < cols_of(map@) implies #[trigger] map@[y]@[x].pos == (
        Vector { x: x as i32, y: y as i32 }) by {
        let q = Vector { x: x as i32, y: y as i32 };
        if q != p {
            assert(cell(map@, q) == cell(old(map)@, q));
        }
    }
    assert forall|y: int, x: int|
        0 <= y < map@.len() && 0 <= x < map@[y]@.len() implies (#[trigger] map@[y]@[x]).pos
        == old(map)@[y]@[x].pos && map@[y]@[x].is_wall == old(map)@[y]@[x].is_wall by {
        let q = Vector { x: x as i32, y: y as i32 };
        if q != p {
            assert(cell(map@, q) == cell(old(map)@, q));
        }
    }
}

/// Marks every cell of the grid as not yet finalised by a search.
fn clear_closed(map: &mut Grid)
    requires
        grid_wf(old(map)@),
    ensures
        grid_wf(final(map)@),
        same_layout(final(map)@, old(map)@),
        forall|p: Vector|
            in_bounds(p, cols_of(final(map)@), final(map)@.len() as int) ==> !#[trigger] cell(
                final(map)@,
                p,
            ).is_closed,
{
    proof {
        lemma_dims(map@);
    }
    let ghost g0 = map@;
    let rows: usize = map.len();
    let cols: usize = map[0].len();
    let mut y: usize = 0;
    while y < rows
        invariant
            grid_wf(map@),
            same_layout(map@, g0),
            rows == map@.len(),
            cols == cols_of(map@),
            cols <= 32767,
            rows <= 32767,
            y <= rows,
            forall|p: Vector|
                in_bounds(p, cols as int, rows as int) && p.y < y ==> !#[trigger] cell(
                    map@,
                    p,
                ).is_closed,
        decreases rows - y,
    {
        let mut x: usize = 0;
        while x < cols
            invariant
                grid_wf(map@),
                same_layout(map@, g0),
                rows == map@.len(),
                cols == cols_of(map@),
                cols <= 32767,
                rows <= 32767,
                y < rows,
                x <= cols,
                forall|p: Vector|
                    in_bounds(p, cols as int, rows as int) && (p.y < y || (p.y == y && p.x < x))
                        ==> !#[trigger] cell(map@, p).is_closed,
            decreases cols - x,
        {
            let p = Vector { x: x as i32, y: y as i32 };
            let mut b = map[y][x];
            b.is_closed = false;
            set_block(map, p, b);
            x = x + 1;
        }
        y = y + 1;
    }
}

/// Index of the first position in `open_set` whose cell has the smallest `f`.
pub fn neighbour_with_min_f(map: &Grid, open_set: &Vec<Vector>) -> (r: usize)
    requires
        grid_wf(map@),
        open_set@.len() > 0,
        forall|i: int|
            0 <= i < open_set@.len() ==> in_bounds(
                #[trigger] open_set@[i],
                cols_of(map@),
                map@.len() as int,
            ),
    ensures
        r < open_set@.len(),
        forall|j: int|
            0 <= j < open_set@.len() ==> cell(map@, open_set@[r as int]).f_val <= cell(
                map@,
                #[trigger] open_set@[j],
            ).f_val,
        forall|j: int|
            0 <= j < r ==> cell(map@, open_set@[r as int]).f_val < cell(
                map@,
                #[trigger] open_set@[j],
            ).f_val,
{
    let mut best: usize = 0;
    let mut i: usize = 1;
    while i < open_set.len()
        invariant
            grid_wf(map@),
            forall|i: int|
                0 <= i < open_set@.len() ==> in_bounds(
                    #[trigger] open_set@[i],
                    cols_of(map@),
                    map@.len() as int,
                ),
            best < i <= open_set@.len(),
            forall|j: int|
                0 <= j < i ==> cell(map@, open_set@[best as int]).f_val <= cell(
                    map@,
                    #[trigger] open_set@[j],
                ).f_val,
            forall|j: int|
                0 <= j < best ==> cell(map@, open_set@[best as int]).f_val < cell(
                    map@,
                    #[trigger] open_set@[j],
                ).f_val,
        decreases open_set@.len() - i,
    {
        let p = open_set[i];
        let q = open_set[best];
        if map[p.y as usize][p.x as usize].f_val < map[q.y as usize][q.x as usize].f_val {
            best = i;
        }
        i = i + 1;
    }
    best
}

/// Whether `p` occurs in `open_set`.
pub(crate) fn contains_position(open_set: &Vec<Vector>, p: Vector) -> (r: bool)
    ensures
        r == open_set@.contains(p),
{
    let mut i: usize = 0;
    while i < open_set.len()
        invariant
            i <= open_set@.len(),
            forall|j: int| 0 <= j < i ==> open_set@[j] != p,
        decreases open_set@.len() - i,
    {
        if open_set[i] == p {
            assert(open_set@[i as int] == p);
            return true;
        }
        i = i + 1;
    }
    false
}

/// Moves the `i`-th cell of the open set, which has the smallest `f` and is
/// not the destination, to the finalised cells. Returns the new numbers of
/// the finalised cells.
fn close_current(
    map: &mut Grid,
    open_set: &mut Vec<Vector>,
    i: usize,
    destination: Vector,
    Ghost(g0): Ghost<Seq<Vec<Block>>>,
    Ghost(start): Ghost<Vector>,
    Ghost(closed): Ghost<Set<int>>,
) -> (closed2: Ghost<Set<int>>)
    requires
        search_inv(old(map)@, g0, old(open_set)@, closed, start, destination, destination),
        i < old(open_set)@.len(),
        old(open_set)@[i as int] != destination,
        forall|j: int|
            0 <= j < old(open_set)@.len() ==> cell(old(map)@, old(open_set)@[i as int]).f_val
                <= cell(old(map)@, #[trigger] old(open_set)@[j]).f_val,
    ensures
        ({
            let current = old(open_set)@[i as int];
            let rows = old(map)@.len() as int;
            let cols = cols_of(old(map)@);
            &&& search_inv(final(map)@, g0, final(open_set)@, closed2@, start, destination, current)
            &&& final(map)@.len() == rows
            &&& cols_of(final(map)@) == cols
            &&& cell(final(map)@, current).is_closed
            &&& cell(final(map)@, start).is_closed
            &&& cell(final(map)@, current).g_val < closed2@.len()
            &&& closed2@.len() <= rows * cols
            &&& closed2@.len() == closed.len() + 1
        }),
{
    proof {
        lemma_dims(map@);
    }
    let current = open_set[i];
    let rows: i32 = map.len() as i32;
    let cols: i32 = map[0].len() as i32;
    let ghost open0 = open_set@;
    let ghost m0 = map@;
    proof {
        assert forall|path: Seq<Vector>| #[trigger] is_route(g0, start, current, path) implies cell(m0, current).g_val <= path.len() by {
            lemma_pop_optimal(m0, g0, open0, closed, start, destination, i as int, path);
        }
    }
    open_set.remove(i);
    let mut cb = map[current.y as usize][current.x as usize];
    cb.is_closed = true;
    set_block(map, current, cb);
    let ghost mut c2 = closed;
    proof {
        lemma_dims(map@);
        lemma_same_layout_trans(map@, m0, g0);
        c2 = closed.insert(idx(current, cols as int));
        lemma_int_range(0, rows * cols);
        lemma_idx(current, current, cols as int, rows as int);
        assert(c2.subset_of(set_int_range(0, rows * cols)));
        lemma_len_subset(c2, set_int_range(0, rows * cols));
        assert(!closed.contains(idx(current, cols as int)));
        assert(open0[i as int] == current);
        assert(discovered(m0, open0, current));
        assert(c2.len() == closed.len() + 1);
        if !cell(m0, start).is_closed {
            assert(open0 == seq![start]);
            assert(current == start);
        }
        assert forall|p: Vector| in_bounds(p, cols as int, rows as int) implies #[trigger] discovered(map@, open_set@, p) == discovered(m0, open0, p) by {
            if p != current {
                assert(cell(map@, p) == cell(m0, p));
                if open0.contains(p) {
                    let j = choose|j: int| 0 <= j < open0.len() && open0[j] == p;
                    if j < i {
                        assert(open_set@[j] == p);
                    } else {
                        assert(open_set@[j - 1] == p);
                    }
                }
                if open_set@.contains(p) {
                    let j = choose|j: int| 0 <= j < open_set@.len() && open_set@[j] == p;
                    if j < i {
                        assert(open0[j] == p);
                    } else {
                        assert(open0[j + 1] == p);
                    }
                }
            }
        }
        assert forall|p: Vector| in_bounds(p, cols as int, rows as int) implies (c2.contains(idx(p, cols as int)) <==> #[trigger] cell(map@, p).is_closed) by {
            lemma_idx(p, current, cols as int, rows as int);
        }
        assert forall|p: Vector|
            in_bounds(p, cols as int, rows as int) && #[trigger] cell(map@, p).is_closed && p != current implies around(map@, open_set@, p, 4) by {
            assert(cell(map@, p) == cell(m0, p));
            assert(around(m0, open0, p, 4));
            assert forall|j: int|
                0 <= j < 4 && !is_blocked(map@, #[trigger] step(p, j, cols as int, rows as int)) implies ({
                    let v = step(p, j, cols as int, rows as int);
                    &&& discovered(map@, open_set@, v)
                    &&& !cell(map@, v).is_closed ==> cell(map@, v).g_val <= cell(map@, p).g_val + 1
                }) by {
                lemma_step_in_bounds(p, j, cols as int, rows as int);
                let v = step(p, j, cols as int, rows as int);
                assert(discovered(m0, open0, v));
                if v != current {
                    assert(cell(map@, v) == cell(m0, v));
                }
            }
        }
        assert forall|p: Vector|
            in_bounds(p, cols as int, rows as int) && #[trigger] discovered(map@, open_set@, p) implies cell(map@, p).f_val
                == cell(map@, p).g_val + heuristic_spec(p, destination, cols as int, rows as int) by {
            assert(discovered(m0, open0, p));
            if p != current {
                assert(cell(map@, p) == cell(m0, p));
            }
        }
        assert forall|c: Vector, path: Seq<Vector>|
            in_bounds(c, cols as int, rows as int) && cell(map@, c).is_closed && #[trigger] is_route(g0, start, c, path)
                implies cell(map@, c).g_val <= path.len() by {
            if c != current {
                assert(cell(map@, c) == cell(m0, c));
            }
        }
        assert forall|p: Vector| in_bounds(p, cols as int, rows as int) && #[trigger] discovered(map@, open_set@, p) implies cell(map@, p).g_val <= c2.len() by {
            assert(discovered(m0, open0, p));
            if p != current {
                assert(cell(map@, p) == cell(m0, p));
            }
        }
        assert forall|p: Vector| in_bounds(p, cols as int, rows as int) && #[trigger] discovered(map@, open_set@, p) && p != start implies parent_ok(map@, p) by {
            assert(discovered(m0, open0, p));
            assert(parent_ok(m0, p));
            let q = cell(m0, p).parent_pos;
            if p != current {
                assert(cell(map@, p) == cell(m0, p));
            }
            if q != current {
                assert(cell(map@, q) == cell(m0, q));
            }
        }
        assert(open_set@.no_duplicates());
        assert forall|j: int| 0 <= j < open_set@.len() implies in_bounds(#[trigger] open_set@[j], cols as int, rows as int) && !cell(map@, open_set@[j]).is_closed by {
            if j < i {
                assert(open_set@[j] == open0[j]);
            } else {
                assert(open_set@[j] == open0[j + 1]);
            }
            assert(open_set@[j] != current);
            assert(cell(map@, open_set@[j]) == cell(m0, open_set@[j]));
        }
    }
    Ghost(c2)
}

/// Relaxes the neighbour of `current` in direction `k`: a free, unfinalised
/// neighbour that is new, or reached more cheaply than before, gets `current`
/// as parent with its new `g` and `f`, and joins the open set if new.
fn relax_neighbour(
    map: &mut Grid,
    open_set: &mut Vec<Vector>,
    current: Vector,
    k: usize,
    destination: Vector,
    Ghost(g0): Ghost<Seq<Vec<Block>>>,
    Ghost(start): Ghost<Vector>,
    Ghost(closed): Ghost<Set<int>>,
)
    requires
        search_inv(old(map)@, g0, old(open_set)@, closed, start, destination, current),
        in_bounds(current, cols_of(old(map)@), old(map)@.len() as int),
        cell(old(map)@, current).is_closed,
        cell(old(map)@, start).is_closed,
        current != destination,
        cell(old(map)@, current).g_val < closed.len(),
        closed.len() <= old(map)@.len() * cols_of(old(map)@),
        k < 4,
        around(old(map)@, old(open_set)@, current, k as int),
    ensures
        search_inv(final(map)@, g0, final(open_set)@, closed, start, destination, current),
        final(map)@.len() == old(map)@.len(),
        cols_of(final(map)@) == cols_of(old(map)@),
        cell(final(map)@, current) == cell(old(map)@, current),
        cell(final(map)@, start).is_closed,
        around(final(map)@, final(open_set)@, current, k + 1),
{
    proof {
        lemma_dims(map@);
    }
    let rows: i32 = map.len() as i32;
    let cols: i32 = map[0].len() as i32;
    let cb = map[current.y as usize][current.x as usize];
    let n = step_position(current, k, cols, rows);
    let nb = map[n.y as usize][n.x as usize];
    let ghost m1 = map@;
    let ghost open1 = open_set@;
    if !nb.is_wall && !nb.is_closed {
        let g2: u16 = cb.g_val + 1;
        let in_open = contains_position(open_set, n);
        if !in_open || g2 < nb.g_val {
            let h = calc_herustic(n, destination, cols, rows);
            assert(0 <= h <= cols + rows);
            let nb2 = Block {
                pos: nb.pos,
                parent_pos: current,
                is_closed: false,
                is_wall: nb.is_wall,
                g_val: g2,
                f_val: g2 + h as u16,
            };
            set_block(map, n, nb2);
            if !in_open {
                open_set.push(n);
            }
            proof {
                lemma_dims(map@);
                lemma_same_layout_trans(map@, m1, g0);
                assert(open_set@.contains(n)) by {
                    if !in_open {
                        assert(open_set@[open_set@.len() - 1] == n);
                    }
                }
                assert forall|p: Vector| in_bounds(p, cols as int, rows as int) && #[trigger] discovered(m1, open1, p) implies discovered(map@, open_set@, p) by {
                    if open1.contains(p) {
                        let j = choose|j: int| 0 <= j < open1.len() && open1[j] == p;
                        assert(open_set@[j] == p);
                    }
                    if p != n {
                        assert(cell(map@, p) == cell(m1, p));
                    }
                }
                assert forall|p: Vector| in_bounds(p, cols as int, rows as int) && #[trigger] discovered(map@, open_set@, p) && p != n implies discovered(m1, open1, p) by {
                    assert(cell(map@, p) == cell(m1, p));
                    if open_set@.contains(p) {
                        let j = choose|j: int| 0 <= j < open_set@.len() && open_set@[j] == p;
                        if j < open1.len() {
                            assert(open1[j] == p);
                        }
                    }
                }
                assert forall|p: Vector| in_bounds(p, cols as int, rows as int) implies (closed.contains(idx(p, cols as int)) <==> #[trigger] cell(map@, p).is_closed) by {
                    if p != n {
                        assert(cell(map@, p) == cell(m1, p));
                    } else {
                        assert(closed.contains(idx(p, cols as int)) == cell(m1, p).is_closed);
                    }
                }
                assert forall|p: Vector| in_bounds(p, cols as int, rows as int) && #[trigger] discovered(map@, open_set@, p) && p != start implies parent_ok(map@, p) by {
                    if p != n {
                        assert(discovered(m1, open1, p));
                        assert(parent_ok(m1, p));
                        let q = cell(m1, p).parent_pos;
                        assert(cell(map@, q) == cell(m1, q));
                    } else {
                        assert(n == step(current, k as int, cols as int, rows as int));
                    }
                }
                assert forall|p: Vector| in_bounds(p, cols as int, rows as int) && #[trigger] discovered(map@, open_set@, p) implies cell(map@, p).g_val <= closed.len() by {
                    if p != n {
                        assert(discovered(m1, open1, p));
                    }
                }
                assert forall|p: Vector| in_bounds(p, cols as int, rows as int) && #[trigger] discovered(map@, open_set@, p) implies cell(map@, p).f_val
                    == cell(map@, p).g_val + heuristic_spec(p, destination, cols as int, rows as int) by {
                    if p != n {
                        assert(discovered(m1, open1, p));
                    }
                }
                assert forall|c: Vector, path: Seq<Vector>|
                    in_bounds(c, cols as int, rows as int) && cell(map@, c).is_closed && #[trigger] is_route(g0, start, c, path)
                        implies cell(map@, c).g_val <= path.len() by {
                    if c != n {
                        assert(cell(map@, c) == cell(m1, c));
                    }
                }
                assert forall|p: Vector| in_bounds(p, cols as int, rows as int) && #[trigger] cell(map@, p).is_closed && p != current implies around(map@, open_set@, p, 4) by {
                    assert(cell(map@, p) == cell(m1, p));
                    assert(around(m1, open1, p, 4));
                    assert forall|j: int| 0 <= j < 4 && !is_blocked(map@, #[trigger] step(p, j, cols as int, rows as int)) implies ({
                        let v = step(p, j, cols as int, rows as int);
                        &&& discovered(map@, open_set@, v)
                        &&& !cell(map@, v).is_closed ==> cell(map@, v).g_val <= cell(map@, p).g_val + 1
                    }) by {
                        lemma_step_in_bounds(p, j, cols as int, rows as int);
                        let v = step(p, j, cols as int, rows as int);
                        assert(discovered(m1, open1, v));
                        if v != n {
                            assert(cell(map@, v) == cell(m1, v));
                        } else {
                            assert(open1.contains(n));
                        }
                    }
                }
                assert forall|j: int| 0 <= j < k + 1 && !is_blocked(map@, #[trigger] step(current, j, cols as int, rows as int)) implies ({
                    let v = step(current, j, cols as int, rows as int);
                    &&& discovered(map@, open_set@, v)
                    &&& !cell(map@, v).is_closed ==> cell(map@, v).g_val <= cell(map@, current).g_val + 1
                }) by {
                    lemma_step_in_bounds(current, j, cols as int, rows as int);
                    let v = step(current, j, cols as int, rows as int);
                    if j < k {
                        assert(discovered(m1, open1, v));
                        if v != n {
                            assert(cell(map@, v) == cell(m1, v));
                        } else {
                            assert(open1.contains(n));
                        }
                    } else {
                        assert(v == n);
                    }
                }
                assert(cell(map@, start).g_val == 0) by {
                    if n == start {
                        assert(discovered(m1, open1, start));
                    }
                }
                assert(open_set@.no_duplicates());
                assert(cell(map@, current) == cell(m1, current));
                assert(cell(map@, start) == cell(m1, start));
            }
            return;
        }
    }
    proof {
        assert forall|j: int| 0 <= j < k + 1 && !is_blocked(map@, #[trigger] step(current, j, cols as int, rows as int)) implies ({
            let v = step(current, j, cols as int, rows as int);
            &&& discovered(map@, open_set@, v)
            &&& !cell(map@, v).is_closed ==> cell(map@, v).g_val <= cell(map@, current).g_val + 1
        }) by {
            if j == k {
                assert(step(current, j, cols as int, rows as int) == n);
                if !nb.is_closed {
                    assert(open_set@.contains(n));
                }
            }
        }
    }
}

/// Searches a route from `start` to `destination` over the free cells of
/// `map`, moving one orthogonal, wrap-aware step at a time.
///
/// The open set is scanned for the smallest `f`; of equal ones the earliest
/// inserted wins. A cell is finalised when it leaves the open set and is never
/// reopened; a reached cell's `g`, `f` and parent are replaced only by a
/// strictly smaller `g`. The returned path is a shortest route; it lists the
/// destination first and the first step last, so that popping from its end
/// walks it, and it is empty when `start == destination`. `None` means that no route exists. The
/// search keeps its data in the cells of `map`: their positions and obstacles
/// stay as they were.
pub fn find_path(map: &mut Grid, start: Vector, destination: Vector) -> (r: Option<Vec<Vector>>)
    requires
        grid_wf(old(map)@),
        in_bounds(start, cols_of(old(map)@), old(map)@.len() as int),
        in_bounds(destination, cols_of(old(map)@), old(map)@.len() as int),
    ensures
        grid_wf(final(map)@),
        same_layout(final(map)@, old(map)@),
        match r {
            Some(path) => is_shortest_route(old(map)@, start, destination, path@),
            None => !reachable(old(map)@, start, destination),
        },
        start == destination ==> r.is_some() && r.unwrap()@.len() == 0,
{
    if start == destination {
        return Some(Vec::new());
    }
    proof {
        lemma_dims(map@);
    }
    let ghost g0 = map@;
    clear_closed(map);
    let rows: i32 = map.len() as i32;
    let cols: i32 = map[0].len() as i32;
    let h0 = calc_herustic(start, destination, cols, rows);
    let mut sb = map[start.y as usize][start.x as usize];
    sb.g_val = 0;
    sb.f_val = h0 as u16;
    sb.parent_pos = start;
    let ghost g1 = map@;
    set_block(map, start, sb);
    proof {
        lemma_same_layout_trans(map@, g1, g0);
    }
    let mut open_set: Vec<Vector> = Vec::new();
    open_set.push(start);
    let ghost mut closed: Set<int> = Set::empty();
    proof {
        assert(open_set@ =~= seq![start]);
        assert forall|p: Vector|
            in_bounds(p, cols as int, rows as int) && #[trigger] discovered(
                map@,
                open_set@,
                p,
            ) implies p == start by {
            if p != start {
                assert(!cell(map@, p).is_closed);
                assert(!open_set@.contains(p)) by {
                    if open_set@.contains(p) {
                        let j = choose|j: int| 0 <= j < open_set@.len() && open_set@[j] == p;
                    }
                }
            }
        }
        assert(cols_of(g1) == cols);
        assert forall|p: Vector| in_bounds(p, cols as int, rows as int) implies !#[trigger] cell(map@, p).is_closed by {
            assert(!cell(g1, p).is_closed);
            if p != start {
                assert(cell(map@, p) == cell(g1, p));
            }
        }
        assert forall|p: Vector| in_bounds(p, cols as int, rows as int) && #[trigger] discovered(map@, open_set@, p) implies cell(map@, p).g_val <= closed.len() by {
            assert(p == start);
        }
        assert forall|p: Vector| in_bounds(p, cols as int, rows as int) && #[trigger] discovered(map@, open_set@, p) && p != start implies parent_ok(map@, p) by {
            assert(p == start);
        }
        assert(open_set@[0] == start);
        assert(discovered(map@, open_set@, start));
        assert(!cell(map@, destination).is_closed);
    }
    let mut found: bool = false;
    loop
        invariant_except_break
            !found,
        invariant
            search_inv(map@, g0, open_set@, closed, start, destination, destination),
            rows == map@.len(),
            cols == cols_of(map@),
            start != destination,
        ensures
            search_inv(map@, g0, open_set@, closed, start, destination, destination),
            found ==> open_set@.contains(destination),
            found ==> forall|other: Seq<Vector>| #[trigger] is_route(g0, start, destination, other)
                ==> cell(map@, destination).g_val <= other.len(),
            !found ==> open_set@.len() == 0,
        decreases rows * cols - closed.len(),
    {
        if open_set.len() == 0 {
            break;
        }
        let i = neighbour_with_min_f(map, &open_set);
        let current = open_set[i];
        if current == destination {
            proof {
                assert(open_set@[i as int] == destination);
                assert forall|other: Seq<Vector>| #[trigger] is_route(g0, start, destination, other) implies cell(map@, destination).g_val <= other.len() by {
                    lemma_pop_optimal(map@, g0, open_set@, closed, start, destination, i as int, other);
                }
            }
            found = true;
            break;
        }
        let c1 = close_current(map, &mut open_set, i, destination, Ghost(g0), Ghost(start), Ghost(closed));
        proof {
            closed = c1@;
        }
        let mut k: usize = 0;
        while k < 4
            invariant
                search_inv(map@, g0, open_set@, closed, start, destination, current),
                rows == map@.len(),
                cols == cols_of(map@),
                in_bounds(current, cols as int, rows as int),
                cell(map@, current).is_closed,
                cell(map@, start).is_closed,
                current != destination,
                cell(map@, current).g_val < closed.len(),
                closed.len() <= rows * cols,
                k <= 4,
                around(map@, open_set@, current, k as int),
            decreases 4 - k,
        {
            relax_neighbour(map, &mut open_set, current, k, destination, Ghost(g0), Ghost(start), Ghost(closed));
            k = k + 1;
        }
    }
    if !found {
        proof {
            assert(open_set@ =~= Seq::<Vector>::empty());
            lemma_exhausted(map@, g0, closed, start, destination);
        }
        return None;
    }
    let mut path: Vec<Vector> = Vec::new();
    let mut cur: Vector = destination;
    proof {
        assert(discovered(map@, open_set@, destination));
    }
    while cur != start
        invariant
            search_inv(map@, g0, open_set@, closed, start, destination, destination),
            rows == map@.len(),
            cols == cols_of(map@),
            in_bounds(cur, cols as int, rows as int),
            discovered(map@, open_set@, cur),
            path@.len() + cell(map@, cur).g_val == cell(map@, destination).g_val,
            path@.len() == 0 ==> cur == destination,
            path@.len() > 0 ==> path@[0] == destination && adjacent(
                cur,
                path@[path@.len() - 1],
                cols as int,
                rows as int,
            ),
            forall|i: int|
                0 <= i < path@.len() - 1 ==> adjacent(
                    #[trigger] path@[i + 1],
                    path@[i],
                    cols as int,
                    rows as int,
                ),
            forall|i: int|
                0 <= i < path@.len() ==> in_bounds(#[trigger] path@[i], cols as int, rows as int)
                    && !is_blocked(g0, path@[i]),
        decreases cell(map@, cur).g_val,
    {
        proof {
            assert(parent_ok(map@, cur));
            assert(g0[cur.y as int]@[cur.x as int].is_wall == map@[cur.y as int]@[cur.x as int].is_wall);
        }
        path.push(cur);
        let ghost prev = cur;
        cur = map[cur.y as usize][cur.x as usize].parent_pos;
        proof {
            assert(path@[path@.len() - 1] == prev);
        }
    }
    Some(path)
}

} // verus!

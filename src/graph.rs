//! The room graph: room centroids, candidate edges between them ordered by
//! length, and the minimum spanning tree that Kruskal's algorithm picks.

use vstd::prelude::*;
use vstd::arithmetic::div_mod::{lemma_div_is_ordered, lemma_div_multiples_vanish};
use crate::cell::{CellKind, Grid, MAX_GRID_SIDE, is_square, dist2, lemma_square_le, square_distance};

verus! {

/// A room centre: column, row, room id.
pub type Center = (usize, usize, usize);

/// The cell is a room cell of room `id`. Only room cells count: a wall or a
/// hallway cell is part of no room, whatever room data it still carries.
pub open spec fn belongs(c: Grid, id: int) -> bool {
    c.cell_type == CellKind::Room && c.room_id == id
}

/// How many cells of `row[0..k]` belong to room `id`, and the sums of their
/// columns and of their rows, the row being row `y`.
pub open spec fn row_tally(row: Seq<Grid>, y: int, id: int, k: int) -> (int, int, int)
    decreases k,
{
    if k <= 0 {
        (0, 0, 0)
    } else {
        let t = row_tally(row, y, id, k - 1);
        if belongs(row[k - 1], id) {
            (t.0 + 1, t.1 + (k - 1), t.2 + y)
        } else {
            t
        }
    }
}

/// The same tally over the rows `0 .. rows` of a grid.
pub open spec fn grid_tally(g: Seq<Vec<Grid>>, id: int, rows: int) -> (int, int, int)
    decreases rows,
{
    if rows <= 0 {
        (0, 0, 0)
    } else {
        let t = grid_tally(g, id, rows - 1);
        let r = row_tally(g[rows - 1]@, rows - 1, id, g[rows - 1]@.len() as int);
        (t.0 + r.0, t.1 + r.1, t.2 + r.2)
    }
}

/// The centres of the rooms with ids `0 .. k` that have at least one cell,
/// in order of id: the truncated means of their cells' columns and rows.
pub open spec fn centers_upto(g: Seq<Vec<Grid>>, k: int) -> Seq<Center>
    decreases k,
{
    if k <= 0 {
        seq![]
    } else {
        let prev = centers_upto(g, k - 1);
        let t = grid_tally(g, k - 1, g.len() as int);
        if t.0 > 0 {
            prev.push(((t.1 / t.0) as usize, (t.2 / t.0) as usize, (k - 1) as usize))
        } else {
            prev
        }
    }
}

proof fn lemma_tally_step(cnt: int, s: int, v: int, m: int)
    requires
        0 <= cnt,
        0 <= s <= cnt * m,
        0 <= v <= m,
    ensures
        s + v <= (cnt + 1) * m,
{
    assert((cnt + 1) * m == cnt * m + m) by (nonlinear_arith);
}

proof fn lemma_mean_below(cnt: int, s: int, m: int)
    requires
        0 < cnt,
        0 <= s <= cnt * m,
    ensures
        s / cnt <= m,
{
    lemma_div_is_ordered(s, cnt * m, cnt);
    lemma_div_multiples_vanish(m, cnt);
}

/// The centre of room `id` in a square grid, if it has any cell.
pub fn room_center(grid: &Vec<Vec<Grid>>, id: usize) -> (r: Option<Center>)
    requires
        is_square(grid@, grid@.len() as int),
        1 <= grid@.len() <= MAX_GRID_SIDE,
    ensures
        ({
            let t = grid_tally(grid@, id as int, grid@.len() as int);
            &&& t.0 >= 0 && t.1 >= 0 && t.2 >= 0
            &&& r is None <==> t.0 == 0
            &&& r is Some ==> r == Some(((t.1 / t.0) as usize, (t.2 / t.0) as usize, id))
            &&& t.0 > 0 ==> t.1 / t.0 < grid@.len() && t.2 / t.0 < grid@.len()
        }),
{
    let n = grid.len();
    let m: u64 = (n - 1) as u64;
    proof {
        lemma_square_le(n as int, MAX_GRID_SIDE as int);
    }
    let mut cnt: u64 = 0;
    let mut sx: u64 = 0;
    let mut sy: u64 = 0;
    let mut y: usize = 0;
    while y < n
        invariant
            n == grid@.len(),
            is_square(grid@, n as int),
            1 <= n <= MAX_GRID_SIDE,
            n * n <= MAX_GRID_SIDE * MAX_GRID_SIDE,
            m == n - 1,
            y <= n,
            (cnt as int, sx as int, sy as int) == grid_tally(grid@, id as int, y as int),
            cnt <= y * n,
            sx <= cnt * m,
            sy <= cnt * m,
        decreases n - y,
    {
        let ghost before = (cnt as int, sx as int, sy as int);
        proof {
            assert(y * n + n <= n * n) by (nonlinear_arith)
                requires
                    y < n,
            ;
        }
        let mut x: usize = 0;
        while x < n
            invariant
                n == grid@.len(),
                is_square(grid@, n as int),
                1 <= n <= MAX_GRID_SIDE,
                n * n <= MAX_GRID_SIDE * MAX_GRID_SIDE,
                m == n - 1,
                y < n,
                x <= n,
                before == grid_tally(grid@, id as int, y as int),
                ({
                    let r = row_tally(grid@[y as int]@, y as int, id as int, x as int);
                    (cnt as int, sx as int, sy as int) == (before.0 + r.0, before.1 + r.1, before.2 + r.2)
                }),
                cnt <= y * n + x,
                y * n + n <= n * n,
                sx <= cnt * m,
                sy <= cnt * m,
            decreases n - x,
        {
            let c = grid[y][x];
            if c.is_room() && c.room_id == id {
                proof {
                    lemma_tally_step(cnt as int, sx as int, x as int, m as int);
                    lemma_tally_step(cnt as int, sy as int, y as int, m as int);
                    assert((cnt + 1) * m <= MAX_GRID_SIDE * MAX_GRID_SIDE * MAX_GRID_SIDE) by (nonlinear_arith)
                        requires
                            cnt + 1 <= MAX_GRID_SIDE * MAX_GRID_SIDE,
                            m <= MAX_GRID_SIDE,
                    ;
                }
                cnt = cnt + 1;
                sx = sx + x as u64;
                sy = sy + y as u64;
            }
            x = x + 1;
        }
        proof {
            assert((y + 1) * n == y * n + n) by (nonlinear_arith);
        }
        y = y + 1;
    }
    if cnt == 0 {
        None
    } else {
        proof {
            lemma_mean_below(cnt as int, sx as int, m as int);
            lemma_mean_below(cnt as int, sy as int, m as int);
        }
        Some(((sx / cnt) as usize, (sy / cnt) as usize, id))
    }
}

/// Every centre lies in a grid of side `n`.
pub open spec fn centers_inside(cs: Seq<Center>, n: int) -> bool {
    forall|k: int| 0 <= k < cs.len() ==> (#[trigger] cs[k]).0 < n && cs[k].1 < n
}

/// The centres of the rooms with ids `0 .. room_count` that have at least one
/// cell, in order of id.
pub fn room_centers(grid: &Vec<Vec<Grid>>, room_count: usize) -> (r: Vec<Center>)
    requires
        is_square(grid@, grid@.len() as int),
        grid@.len() <= MAX_GRID_SIDE,
    ensures
        r@ == centers_upto(grid@, room_count as int),
        centers_inside(r@, grid@.len() as int),
{
    let mut centers: Vec<Center> = Vec::new();
    let mut id: usize = 0;
    while id < room_count
        invariant
            is_square(grid@, grid@.len() as int),
            grid@.len() <= MAX_GRID_SIDE,
            id <= room_count,
            centers@ == centers_upto(grid@, id as int),
            centers_inside(centers@, grid@.len() as int),
        decreases room_count - id,
    {
        let ghost t = grid_tally(grid@, id as int, grid@.len() as int);
        assert(centers_upto(grid@, id + 1) == if t.0 > 0 {
            centers_upto(grid@, id as int).push(((t.1 / t.0) as usize, (t.2 / t.0) as usize, id))
        } else {
            centers_upto(grid@, id as int)
        });
        if grid.len() > 0 {
            match room_center(grid, id) {
                Some(c) => {
                    assert(t.0 > 0);
                    assert(c == ((t.1 / t.0) as usize, (t.2 / t.0) as usize, id));
                    let ghost before = centers@;
                    centers.push(c);
                    assert(centers@ == centers_upto(grid@, id + 1));
                    assert forall|k: int| 0 <= k < centers@.len() implies (#[trigger] centers@[k]).0 < grid@.len()
                        && centers@[k].1 < grid@.len() by {
                        if k < before.len() {
                            assert(centers@[k] == before[k]);
                        }
                    }
                },
                None => {
                    assert(t.0 == 0);
                },
            }
        } else {
            assert(t == (0int, 0int, 0int));
        }
        id = id + 1;
    }
    centers
}

/// `r` is the integer square root of `v`: the largest whole number whose
/// square is at most `v`.
pub open spec fn is_root(v: int, r: int) -> bool {
    0 <= r && r * r <= v < (r + 1) * (r + 1)
}

/// The Euclidean distance between two centres, truncated.
pub open spec fn edge_length(a: Center, b: Center, d: int) -> bool {
    is_root(dist2(a.0 as int, a.1 as int, b.0 as int, b.1 as int), d)
}

/// The integer square root of `v`.
pub fn floor_sqrt(v: u64) -> (r: u64)
    requires
        v < 0x100_0000_0000,
    ensures
        is_root(v as int, r as int),
        r < 0x10_0000,
{
    let mut lo: u64 = 0;
    let mut hi: u64 = 0x10_0000;
    while hi - lo > 1
        invariant
            lo < hi <= 0x10_0000,
            lo * lo <= v,
            v < hi * hi,
        decreases hi - lo,
    {
        let mid = lo + (hi - lo) / 2;
        proof {
            lemma_square_le(mid as int, 0x10_0000);
        }
        if mid * mid <= v {
            lo = mid;
        } else {
            hi = mid;
        }
    }
    lo
}

/// The roots of a number are unique.
pub proof fn lemma_root_unique(v: int, a: int, b: int)
    requires
        is_root(v, a),
        is_root(v, b),
    ensures
        a == b,
{
    if a < b {
        lemma_square_le(a + 1, b);
    } else if b < a {
        lemma_square_le(b + 1, a);
    }
}

/// An edge: the indices of two centres and their truncated distance.
pub type Edge = (usize, usize, usize);

/// Edge `e` joins two centres of `cs`, the lower index first, and carries
/// their distance.
pub open spec fn is_candidate(cs: Seq<Center>, e: Edge) -> bool {
    &&& e.0 < e.1 < cs.len()
    &&& edge_length(cs[e.0 as int], cs[e.1 as int], e.2 as int)
}

/// Edges are ordered by length, then by the pair of indices: the order in
/// which a stable sort by length leaves the pairs enumerated in order.
pub open spec fn edge_before(a: Edge, b: Edge) -> bool {
    ||| a.2 < b.2
    ||| (a.2 == b.2 && a.0 < b.0)
    ||| (a.2 == b.2 && a.0 == b.0 && a.1 < b.1)
}

pub open spec fn edges_sorted(es: Seq<Edge>) -> bool {
    forall|i: int, j: int| 0 <= i < j < es.len() ==> edge_before(#[trigger] es[i], #[trigger] es[j])
}

/// `es` lists every candidate edge between the centres `cs` once, in order.
pub open spec fn sorted_candidates(cs: Seq<Center>, es: Seq<Edge>) -> bool {
    &&& edges_sorted(es)
    &&& forall|e: Edge| es.contains(e) <==> is_candidate(cs, e)
}

/// Whether `a` comes before `b` in the order of edges.
fn comes_before(a: Edge, b: Edge) -> (r: bool)
    ensures
        r == edge_before(a, b),
{
    a.2 < b.2 || (a.2 == b.2 && a.0 < b.0) || (a.2 == b.2 && a.0 == b.0 && a.1 < b.1)
}

/// Every edge between two of the centres, shortest first, ties in the order
/// of the pairs.
pub fn sorted_edges(centers: &Vec<Center>) -> (r: Vec<Edge>)
    requires
        centers_inside(centers@, MAX_GRID_SIDE as int),
    ensures
        sorted_candidates(centers@, r@),
{
    let m = centers.len();
    let mut edges: Vec<Edge> = Vec::new();
    let mut i: usize = 0;
    while i < m
        invariant
            m == centers@.len(),
            centers_inside(centers@, MAX_GRID_SIDE as int),
            i <= m,
            edges_sorted(edges@),
            forall|e: Edge| edges@.contains(e) <==> (is_candidate(centers@, e) && e.0 < i),
        decreases m - i,
    {
        let mut j: usize = i + 1;
        while j < m
            invariant
                m == centers@.len(),
                centers_inside(centers@, MAX_GRID_SIDE as int),
                i < m,
                i + 1 <= j <= m,
                edges_sorted(edges@),
                forall|e: Edge|
                    edges@.contains(e) <==> (is_candidate(centers@, e) && (e.0 < i || (e.0 == i && e.1 < j))),
            decreases m - j,
        {
            let a = centers[i];
            let b = centers[j];
            let d2 = square_distance(a.0, a.1, b.0, b.1);
            let d = floor_sqrt(d2);
            let e: Edge = (i, j, d as usize);
            let mut pos: usize = 0;
            while pos < edges.len() && comes_before(edges[pos], e)
                invariant
                    pos <= edges@.len(),
                    forall|k: int| 0 <= k < pos ==> edge_before(#[trigger] edges@[k], e),
                decreases edges@.len() - pos,
            {
                pos = pos + 1;
            }
            let ghost old_edges = edges@;
            proof {
                assert forall|k: int| pos <= k < old_edges.len() implies edge_before(e, #[trigger] old_edges[k]) by {
                    let f = old_edges[k];
                    assert(old_edges.contains(f));
                    assert(f.0 < i || (f.0 == i && f.1 < j));
                    if pos < k {
                        assert(edge_before(old_edges[pos as int], f));
                    }
                }
            }
            edges.insert(pos, e);
            proof {
                assert forall|x: int, y: int| 0 <= x < y < edges@.len() implies edge_before(
                    #[trigger] edges@[x],
                    #[trigger] edges@[y],
                ) by {
                    if x < pos && y > pos {
                        assert(edges@[x] == old_edges[x]);
                        assert(edges@[y] == old_edges[y - 1]);
                        assert(edge_before(old_edges[x], old_edges[y - 1]));
                    } else if x < pos {
                        assert(edges@[x] == old_edges[x]);
                        if y < pos {
                            assert(edges@[y] == old_edges[y]);
                        }
                    } else if x == pos {
                        assert(edges@[y] == old_edges[y - 1]);
                    } else {
                        assert(edges@[x] == old_edges[x - 1]);
                        assert(edges@[y] == old_edges[y - 1]);
                    }
                }
                assert forall|f: Edge|
                    edges@.contains(f) <==> (is_candidate(centers@, f) && (f.0 < i || (f.0 == i && f.1 < j
                        + 1))) by {
                    if edges@.contains(f) {
                        let k = choose|k: int| 0 <= k < edges@.len() && edges@[k] == f;
                        if k < pos {
                            assert(old_edges.contains(f));
                        } else if k > pos {
                            assert(old_edges[k - 1] == f);
                            assert(old_edges.contains(f));
                        }
                    }
                    if is_candidate(centers@, f) && (f.0 < i || (f.0 == i && f.1 < j + 1)) {
                        if f.0 == i && f.1 == j {
                            lemma_root_unique(dist2(a.0 as int, a.1 as int, b.0 as int, b.1 as int), f.2 as int, d as int);
                            assert(edges@[pos as int] == f);
                        } else {
                            assert(old_edges.contains(f));
                            let k = choose|k: int| 0 <= k < old_edges.len() && old_edges[k] == f;
                            if k < pos {
                                assert(edges@[k] == f);
                            } else {
                                assert(edges@[k + 1] == f);
                            }
                        }
                    }
                }
            }
            j = j + 1;
        }
        i = i + 1;
    }
    edges
}

/// Two sorted lists of edges with the same members are the same list: the
/// candidate edges of given centres have exactly one sorted order.
pub proof fn lemma_sorted_edges_unique(a: Seq<Edge>, b: Seq<Edge>)
    requires
        edges_sorted(a),
        edges_sorted(b),
        forall|e: Edge| a.contains(e) <==> b.contains(e),
    ensures
        a == b,
    decreases a.len(),
{
    if a.len() == 0 {
        if b.len() > 0 {
            assert(b.contains(b[0]));
        }
        assert(a =~= b);
    } else {
        assert(a.contains(a[0]));
        assert(b.len() > 0);
        assert(b.contains(b[0]));
        let j = choose|j: int| 0 <= j < b.len() && b[j] == a[0];
        let i = choose|i: int| 0 <= i < a.len() && a[i] == b[0];
        if j > 0 && i > 0 {
            assert(edge_before(b[0], b[j]));
            assert(edge_before(a[0], a[i]));
        }
        assert(a[0] == b[0]);
        let a1 = a.subrange(1, a.len() as int);
        let b1 = b.subrange(1, b.len() as int);
        assert forall|x: int, y: int| 0 <= x < y < a1.len() implies edge_before(#[trigger] a1[x], #[trigger] a1[y]) by {
            assert(edge_before(a[x + 1], a[y + 1]));
        }
        assert forall|x: int, y: int| 0 <= x < y < b1.len() implies edge_before(#[trigger] b1[x], #[trigger] b1[y]) by {
            assert(edge_before(b[x + 1], b[y + 1]));
        }
        assert forall|e: Edge| a1.contains(e) implies b1.contains(e) by {
            let x = choose|x: int| 0 <= x < a1.len() && a1[x] == e;
            assert(edge_before(a[0], a[x + 1]));
            assert(a.contains(e));
            let y = choose|y: int| 0 <= y < b.len() && b[y] == e;
            assert(y != 0);
            assert(b1[y - 1] == e);
        }
        assert forall|e: Edge| b1.contains(e) implies a1.contains(e) by {
            let x = choose|x: int| 0 <= x < b1.len() && b1[x] == e;
            assert(edge_before(b[0], b[x + 1]));
            assert(b.contains(e));
            let y = choose|y: int| 0 <= y < a.len() && a[y] == e;
            assert(y != 0);
            assert(a1[y - 1] == e);
        }
        lemma_sorted_edges_unique(a1, b1);
        assert(a =~= seq![a[0]] + a1);
        assert(b =~= seq![b[0]] + b1);
    }
}

/// Before any edge: every centre in a set of its own.
pub open spec fn initial_sets(m: int) -> Seq<usize> {
    Seq::new(m as nat, |k: int| k as usize)
}

/// The sets after moving every member of set `from` into set `to`.
pub open spec fn merged(sets: Seq<usize>, from: usize, to: usize) -> Seq<usize> {
    sets.map_values(|s: usize| if s == from { to } else { s })
}

/// The set of each of `m` centres after Kruskal's algorithm has gone through
/// the edges `es[0 .. k]`.
pub open spec fn sets_after(es: Seq<Edge>, m: int, k: int) -> Seq<usize>
    decreases k,
{
    if k <= 0 {
        initial_sets(m)
    } else {
        let s = sets_after(es, m, k - 1);
        let e = es[k - 1];
        if s[e.0 as int] != s[e.1 as int] {
            merged(s, s[e.1 as int], s[e.0 as int])
        } else {
            s
        }
    }
}

/// Kruskal's algorithm takes edge `es[k]` into the tree: its ends are in
/// different sets when it comes up.
pub open spec fn tree_edge(es: Seq<Edge>, m: int, k: int) -> bool {
    let s = sets_after(es, m, k);
    s[es[k].0 as int] != s[es[k].1 as int]
}

/// Every edge joins two of `m` centres.
pub open spec fn edges_within(es: Seq<Edge>, m: int) -> bool {
    forall|k: int| 0 <= k < es.len() ==> (#[trigger] es[k]).0 < m && es[k].1 < m
}

pub(crate) proof fn lemma_sets_len(es: Seq<Edge>, m: int, k: int)
    requires
        0 <= m,
        0 <= k <= es.len(),
        edges_within(es, m),
    ensures
        sets_after(es, m, k).len() == m,
    decreases k,
{
    if k > 0 {
        lemma_sets_len(es, m, k - 1);
    }
}

/// Marks, for each edge in order, whether Kruskal's algorithm takes it into
/// the minimum spanning tree of `m` centres.
pub fn spanning_tree(m: usize, edges: &Vec<Edge>) -> (r: Vec<bool>)
    requires
        edges_within(edges@, m as int),
    ensures
        r@.len() == edges@.len(),
        forall|k: int| 0 <= k < edges@.len() ==> r@[k] == tree_edge(edges@, m as int, k),
{
    let mut sets: Vec<usize> = Vec::new();
    let mut t: usize = 0;
    while t < m
        invariant
            t <= m,
            sets@ == initial_sets(t as int),
        decreases m - t,
    {
        sets.push(t);
        assert(sets@ =~= initial_sets(t + 1));
        t = t + 1;
    }
    let mut tree: Vec<bool> = Vec::new();
    let mut k: usize = 0;
    while k < edges.len()
        invariant
            edges_within(edges@, m as int),
            k <= edges@.len(),
            sets@ == sets_after(edges@, m as int, k as int),
            sets@.len() == m,
            tree@.len() == k,
            forall|q: int| 0 <= q < k ==> tree@[q] == tree_edge(edges@, m as int, q),
        decreases edges@.len() - k,
    {
        let (i, j, _) = edges[k];
        let set_i = sets[i];
        let set_j = sets[j];
        if set_i != set_j {
            let ghost s0 = sets@;
            let mut p: usize = 0;
            while p < sets.len()
                invariant
                    sets@.len() == s0.len(),
                    p <= sets@.len(),
                    forall|q: int| 0 <= q < p ==> #[trigger] sets@[q] == if s0[q] == set_j { set_i } else { s0[q] },
                    forall|q: int| p <= q < sets@.len() ==> #[trigger] sets@[q] == s0[q],
                decreases sets@.len() - p,
            {
                if sets[p] == set_j {
                    sets.set(p, set_i);
                }
                p = p + 1;
            }
            assert(sets@ =~= merged(s0, set_j, set_i));
            tree.push(true);
        } else {
            tree.push(false);
        }
        k = k + 1;
    }
    tree
}

proof fn lemma_dist2_bound(ax: int, ay: int, bx: int, by: int)
    requires
        0 <= ax < MAX_GRID_SIDE,
        0 <= ay < MAX_GRID_SIDE,
        0 <= bx < MAX_GRID_SIDE,
        0 <= by < MAX_GRID_SIDE,
    ensures
        0 <= dist2(ax, ay, bx, by) <= 2 * MAX_GRID_SIDE * MAX_GRID_SIDE,
{
    let dx = if ax >= bx { ax - bx } else { bx - ax };
    let dy = if ay >= by { ay - by } else { by - ay };
    lemma_square_le(dx, MAX_GRID_SIDE as int);
    lemma_square_le(dy, MAX_GRID_SIDE as int);
    assert((ax - bx) * (ax - bx) == dx * dx) by (nonlinear_arith)
        requires
            dx == ax - bx || dx == bx - ax,
    ;
    assert((ay - by) * (ay - by) == dy * dy) by (nonlinear_arith)
        requires
            dy == ay - by || dy == by - ay,
    ;
}

/// Some whole number is the integer square root of `v`.
pub proof fn lemma_root_exists(v: int) -> (r: int)
    requires
        0 <= v,
    ensures
        is_root(v, r),
    decreases v,
{
    if v == 0 {
        assert(0int * 0int == 0 && 1int * 1int == 1);
        0
    } else {
        let r = lemma_root_exists(v - 1);
        if (r + 1) * (r + 1) <= v {
            assert(v < (r + 2) * (r + 2)) by (nonlinear_arith)
                requires
                    0 <= r,
                    v - 1 < (r + 1) * (r + 1),
            ;
            r + 1
        } else {
            r
        }
    }
}

/// Once two centres share a set, they keep sharing one.
proof fn lemma_together_stays(es: Seq<Edge>, m: int, k: int, l: int, a: int, b: int)
    requires
        0 <= k <= l <= es.len(),
        sets_after(es, m, k)[a] == sets_after(es, m, k)[b],
        0 <= a < m,
        0 <= b < m,
        0 <= m,
        edges_within(es, m),
    ensures
        sets_after(es, m, l)[a] == sets_after(es, m, l)[b],
    decreases l - k,
{
    if k < l {
        lemma_sets_len(es, m, k);
        assert(sets_after(es, m, k + 1)[a] == sets_after(es, m, k + 1)[b]);
        lemma_together_stays(es, m, k + 1, l, a, b);
    }
}

/// Kruskal's tree over the candidate edges spans all the centres: after the
/// last edge, every two centres are in one set.
pub proof fn lemma_tree_spans(cs: Seq<Center>, es: Seq<Edge>, a: int, b: int)
    requires
        sorted_candidates(cs, es),
        centers_inside(cs, MAX_GRID_SIDE as int),
        cs.len() <= usize::MAX,
        0 <= a < b < cs.len(),
    ensures
        sets_after(es, cs.len() as int, es.len() as int)[a] == sets_after(es, cs.len() as int, es.len() as int)[b],
{
    let m = cs.len() as int;
    assert(edges_within(es, m)) by {
        assert forall|k: int| 0 <= k < es.len() implies (#[trigger] es[k]).0 < m && es[k].1 < m by {
            assert(es.contains(es[k]));
        }
    }
    let ca = cs[a];
    let cb = cs[b];
    let v = dist2(ca.0 as int, ca.1 as int, cb.0 as int, cb.1 as int);
    lemma_dist2_bound(ca.0 as int, ca.1 as int, cb.0 as int, cb.1 as int);
    let d = lemma_root_exists(v);
    if d >= 0x10_0000 {
        lemma_square_le(0x10_0000, d);
    }
    let e: Edge = (a as usize, b as usize, d as usize);
    assert(is_candidate(cs, e));
    assert(es.contains(e));
    let k = choose|k: int| 0 <= k < es.len() && es[k] == e;
    lemma_sets_len(es, m, k);
    let s = sets_after(es, m, k);
    if s[a] != s[b] {
        assert(sets_after(es, m, k + 1) == merged(s, s[b], s[a]));
        assert(merged(s, s[b], s[a])[a] == s[a]);
        assert(merged(s, s[b], s[a])[b] == s[a]);
    }
    assert(sets_after(es, m, k + 1)[a] == sets_after(es, m, k + 1)[b]);
    lemma_together_stays(es, m, k + 1, es.len() as int, a, b);
}

/// How many of the edges `es[0 .. k]` Kruskal's algorithm takes.
pub open spec fn tree_size(es: Seq<Edge>, m: int, k: int) -> int
    decreases k,
{
    if k <= 0 {
        0
    } else {
        tree_size(es, m, k - 1) + if tree_edge(es, m, k - 1) { 1int } else { 0int }
    }
}

/// Each edge taken joins two sets into one: the edges taken and the sets left
/// add up to the number of centres.
proof fn lemma_sets_shrink(es: Seq<Edge>, m: int, k: int)
    requires
        0 <= m <= usize::MAX,
        0 <= k <= es.len(),
        edges_within(es, m),
    ensures
        tree_size(es, m, k) + sets_after(es, m, k).to_set().len() == m,
    decreases k,
{
    broadcast use vstd::seq_lib::seq_to_set_is_finite;
    if k == 0 {
        let s = initial_sets(m);
        assert forall|i: int, j: int| 0 <= i < s.len() && 0 <= j < s.len() && i != j implies s[i] != s[j] by {
            assert(s[i] == i as usize && s[j] == j as usize);
        }
        assert(s.no_duplicates());
        s.unique_seq_to_set();
    } else {
        lemma_sets_shrink(es, m, k - 1);
        lemma_sets_len(es, m, k - 1);
        let s = sets_after(es, m, k - 1);
        let e = es[k - 1];
        if tree_edge(es, m, k - 1) {
            let f = s[e.1 as int];
            let t = s[e.0 as int];
            let s2 = merged(s, f, t);
            assert(s2.to_set() =~= s.to_set().remove(f)) by {
                assert forall|v: usize| s2.to_set().contains(v) implies s.to_set().remove(f).contains(v) by {
                    let i = choose|i: int| 0 <= i < s2.len() && s2[i] == v;
                    if s[i] == f {
                        assert(s[e.0 as int] == v);
                    } else {
                        assert(s[i] == v);
                    }
                }
                assert forall|v: usize| s.to_set().remove(f).contains(v) implies s2.to_set().contains(v) by {
                    let i = choose|i: int| 0 <= i < s.len() && s[i] == v;
                    assert(s2[i] == v);
                }
            }
            assert(s.to_set().contains(f));
            vstd::set::axiom_set_remove_len(s.to_set(), f);
        }
    }
}

/// Kruskal's tree over the candidate edges of `m` centres has `m - 1` edges:
/// with `lemma_tree_spans`, it is a spanning tree, without cycles.
pub proof fn lemma_tree_size(cs: Seq<Center>, es: Seq<Edge>)
    requires
        sorted_candidates(cs, es),
        centers_inside(cs, MAX_GRID_SIDE as int),
        1 <= cs.len() <= usize::MAX,
    ensures
        tree_size(es, cs.len() as int, es.len() as int) == cs.len() - 1,
{
    broadcast use vstd::seq_lib::seq_to_set_is_finite;
    let m = cs.len() as int;
    assert(edges_within(es, m)) by {
        assert forall|k: int| 0 <= k < es.len() implies (#[trigger] es[k]).0 < m && es[k].1 < m by {
            assert(es.contains(es[k]));
        }
    }
    lemma_sets_shrink(es, m, es.len() as int);
    lemma_sets_len(es, m, es.len() as int);
    let s = sets_after(es, m, es.len() as int);
    assert(s.to_set() =~= set![s[0]]) by {
        assert forall|v: usize| s.to_set().contains(v) implies v == s[0] by {
            let i = choose|i: int| 0 <= i < s.len() && s[i] == v;
            if i > 0 {
                lemma_tree_spans(cs, es, 0, i);
            }
        }
        assert(s.to_set().contains(s[0]));
    }
}

/// Edge `es[q]` joins centres `a` and `b`, in either direction.
pub open spec fn joins(es: Seq<Edge>, q: int, a: int, b: int) -> bool {
    (es[q].0 == a && es[q].1 == b) || (es[q].0 == b && es[q].1 == a)
}

/// One step of a walk along the edges that Kruskal's algorithm took among
/// `es[0 .. k]`: staying, or crossing such an edge.
pub open spec fn tree_step(es: Seq<Edge>, m: int, k: int, a: int, b: int) -> bool {
    a == b || exists|q: int| 0 <= q < k && tree_edge(es, m, q) && #[trigger] joins(es, q, a, b)
}

/// `p` is a walk along the edges taken among `es[0 .. k]`.
pub open spec fn tree_walk(es: Seq<Edge>, m: int, k: int, p: Seq<int>) -> bool {
    &&& p.len() >= 1
    &&& forall|i: int| 0 <= i < p.len() - 1 ==> tree_step(es, m, k, #[trigger] p[i], p[i + 1])
}

/// Some walk along the edges taken among `es[0 .. k]` leads from `a` to `b`.
pub open spec fn tree_linked(es: Seq<Edge>, m: int, k: int, a: int, b: int) -> bool {
    exists|p: Seq<int>| tree_walk(es, m, k, p) && p[0] == a && p[p.len() - 1] == b
}

proof fn lemma_tree_linked_back(es: Seq<Edge>, m: int, k: int, a: int, b: int)
    requires
        tree_linked(es, m, k, a, b),
    ensures
        tree_linked(es, m, k, b, a),
{
    let p = choose|p: Seq<int>| tree_walk(es, m, k, p) && p[0] == a && p[p.len() - 1] == b;
    let l = p.len() as int;
    let r = Seq::new(l as nat, |i: int| p[l - 1 - i]);
    assert forall|i: int| 0 <= i < r.len() - 1 implies tree_step(es, m, k, #[trigger] r[i], r[i + 1]) by {
        let u = p[l - 2 - i];
        let v = p[l - 1 - i];
        assert(tree_step(es, m, k, u, v));
        if u != v {
            let q = choose|q: int| 0 <= q < k && tree_edge(es, m, q) && #[trigger] joins(es, q, u, v);
            assert(joins(es, q, v, u));
        }
    }
    assert(tree_walk(es, m, k, r) && r[0] == b && r[r.len() - 1] == a);
}

proof fn lemma_tree_linked_on(es: Seq<Edge>, m: int, k: int, a: int, b: int, c: int)
    requires
        tree_linked(es, m, k, a, b),
        tree_linked(es, m, k, b, c),
    ensures
        tree_linked(es, m, k, a, c),
{
    let p = choose|p: Seq<int>| tree_walk(es, m, k, p) && p[0] == a && p[p.len() - 1] == b;
    let q = choose|q: Seq<int>| tree_walk(es, m, k, q) && q[0] == b && q[q.len() - 1] == c;
    let r = p + q;
    assert forall|i: int| 0 <= i < r.len() - 1 implies tree_step(es, m, k, #[trigger] r[i], r[i + 1]) by {
        if i < p.len() - 1 {
            assert(tree_step(es, m, k, p[i], p[i + 1]));
        } else if i == p.len() - 1 {
            assert(r[i] == b && r[i + 1] == b);
        } else {
            assert(tree_step(es, m, k, q[i - p.len()], q[i - p.len() + 1]));
        }
    }
    assert(tree_walk(es, m, k, r) && r[0] == a && r[r.len() - 1] == c);
}

/// A walk along the edges taken among the first `k` is one among the first
/// `k + 1`.
proof fn lemma_tree_linked_later(es: Seq<Edge>, m: int, k: int, a: int, b: int)
    requires
        0 <= k,
        tree_linked(es, m, k, a, b),
    ensures
        tree_linked(es, m, k + 1, a, b),
{
    let p = choose|p: Seq<int>| tree_walk(es, m, k, p) && p[0] == a && p[p.len() - 1] == b;
    assert forall|i: int| 0 <= i < p.len() - 1 implies tree_step(es, m, k + 1, #[trigger] p[i], p[i + 1]) by {
        assert(tree_step(es, m, k, p[i], p[i + 1]));
        if p[i] != p[i + 1] {
            let q = choose|q: int| 0 <= q < k && tree_edge(es, m, q) && #[trigger] joins(es, q, p[i], p[i + 1]);
            assert(joins(es, q, p[i], p[i + 1]));
        }
    }
    assert(tree_walk(es, m, k + 1, p) && p[0] == a && p[p.len() - 1] == b);
}

/// Centres in one set after the first `k` edges are joined by a walk along
/// the edges taken among them.
proof fn lemma_sets_are_walks(es: Seq<Edge>, m: int, k: int)
    requires
        0 <= m <= usize::MAX,
        0 <= k <= es.len(),
        edges_within(es, m),
    ensures
        forall|a: int, b: int|
            0 <= a < m && 0 <= b < m && #[trigger] sets_after(es, m, k)[a] == #[trigger] sets_after(es, m, k)[b]
                ==> tree_linked(es, m, k, a, b),
    decreases k,
{
    if k == 0 {
        assert forall|a: int, b: int|
            0 <= a < m && 0 <= b < m && #[trigger] sets_after(es, m, 0)[a] == #[trigger] sets_after(es, m, 0)[b]
            implies tree_linked(es, m, 0, a, b) by {
            assert(initial_sets(m)[a] == a as usize && initial_sets(m)[b] == b as usize);
            let p = seq![a];
            assert(tree_walk(es, m, 0, p) && p[0] == a && p[p.len() - 1] == b);
        }
    } else {
        lemma_sets_are_walks(es, m, k - 1);
        lemma_sets_len(es, m, k - 1);
        let s = sets_after(es, m, k - 1);
        let i = es[k - 1].0 as int;
        let j = es[k - 1].1 as int;
        assert(es[k - 1].0 < m && es[k - 1].1 < m);
        assert forall|a: int, b: int|
            0 <= a < m && 0 <= b < m && s[a] == s[b] implies tree_linked(es, m, k, a, b) by {
            assert(s[a] == s[b]);
            assert(tree_linked(es, m, k - 1, a, b));
            lemma_tree_linked_later(es, m, k - 1, a, b);
        }
        if s[i] != s[j] {
            let f = s[j];
            let t = s[i];
            let p = seq![i, j];
            assert(joins(es, k - 1, i, j));
            assert(tree_step(es, m, k, i, j));
            assert(tree_walk(es, m, k, p) && p[0] == i && p[p.len() - 1] == j);
            lemma_tree_linked_back(es, m, k, i, j);
            assert(sets_after(es, m, k) == merged(s, f, t));
            assert forall|a: int, b: int|
                0 <= a < m && 0 <= b < m && #[trigger] sets_after(es, m, k)[a] == #[trigger] sets_after(es, m, k)[b]
                implies tree_linked(es, m, k, a, b) by {
                assert(merged(s, f, t)[a] == if s[a] == f { t } else { s[a] });
                assert(merged(s, f, t)[b] == if s[b] == f { t } else { s[b] });
                if s[a] == s[b] {
                } else if s[a] == f {
                    assert(s[j] == s[a] && s[i] == s[b]);
                    lemma_tree_linked_on(es, m, k, a, j, i);
                    lemma_tree_linked_on(es, m, k, a, i, b);
                } else {
                    assert(s[i] == s[a] && s[j] == s[b]);
                    lemma_tree_linked_on(es, m, k, a, i, j);
                    lemma_tree_linked_on(es, m, k, a, j, b);
                }
            }
        }
    }
}

/// Every candidate edge that Kruskal's algorithm leaves out closes a cycle of
/// tree edges that come before it, none of them longer than it: the tree has
/// the cycle property of minimum spanning trees.
pub proof fn lemma_left_out_edge_closes_cycle(cs: Seq<Center>, es: Seq<Edge>, k: int)
    requires
        sorted_candidates(cs, es),
        cs.len() <= usize::MAX,
        0 <= k < es.len(),
        !tree_edge(es, cs.len() as int, k),
    ensures
        tree_linked(es, cs.len() as int, k, es[k].0 as int, es[k].1 as int),
        forall|q: int| 0 <= q < k ==> (#[trigger] es[q]).2 <= es[k].2,
{
    let m = cs.len() as int;
    assert(edges_within(es, m)) by {
        assert forall|q: int| 0 <= q < es.len() implies (#[trigger] es[q]).0 < m && es[q].1 < m by {
            assert(es.contains(es[q]));
        }
    }
    lemma_sets_are_walks(es, m, k);
    let s = sets_after(es, m, k);
    assert(s[es[k].0 as int] == s[es[k].1 as int]);
    assert forall|q: int| 0 <= q < k implies (#[trigger] es[q]).2 <= es[k].2 by {
        assert(edge_before(es[q], es[k]));
    }
}

} // verus!

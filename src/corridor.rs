//! Painting L-shaped corridors between two points of a grid.

use vstd::prelude::*;
use rand::rngs::StdRng;
use crate::cell::{Grid, MAX_GRID_SIDE, is_square, at, hallway_of, fill_rect};
use crate::graph::{
    lemma_sorted_edges_unique,
    Center, Edge, centers_inside, centers_upto, edges_within, room_centers, sorted_candidates,
    sorted_edges, spanning_tree, tree_edge,
};
use crate::random::random_in;
use crate::placer::NUMBER_OF_ROOMS;

verus! {

pub open spec fn min_of(a: int, b: int) -> int {
    if a <= b { a } else { b }
}

pub open spec fn max_of(a: int, b: int) -> int {
    if a <= b { b } else { a }
}

/// Whether cell `(x, y)` lies on the corridor from `(x1, y1)` to `(x2, y2)` of
/// width `w`: a horizontal run along row `y1` and the `w - 1` rows above it,
/// and a vertical run along column `x2` and the `w - 1` columns left of it.
pub open spec fn on_corridor(x1: int, y1: int, x2: int, y2: int, w: int, x: int, y: int) -> bool {
    ||| (min_of(x1, x2) <= x <= max_of(x1, x2) && 0 <= y <= y1 && y1 - y < w)
    ||| (min_of(y1, y2) <= y <= max_of(y1, y2) && 0 <= x <= x2 && x2 - x < w)
}

/// The grid `g` of side `n` after painting the corridor from `(x1, y1)` to
/// `(x2, y2)` of width `w` on it.
pub open spec fn painted(g: Seq<Vec<Grid>>, n: int, x1: int, y1: int, x2: int, y2: int, w: int, h: Seq<Vec<Grid>>) -> bool {
    &&& is_square(h, n)
    &&& forall|x: int, y: int|
        0 <= x < n && 0 <= y < n ==> #[trigger] at(h, x, y) == if on_corridor(x1, y1, x2, y2, w, x, y) {
            hallway_of(at(g, x, y))
        } else {
            at(g, x, y)
        }
}

/// Paints a hallway of width `hallway_width` from the first room centre to the
/// second: every cell on the corridor becomes a hallway cell, whatever it was,
/// and keeps its room data; every other cell is left as it was.
pub fn connect_rooms(
    grid: &mut Vec<Vec<Grid>>,
    room1: (usize, usize, usize),
    room2: (usize, usize, usize),
    hallway_width: usize,
)
    requires
        is_square(old(grid)@, old(grid)@.len() as int),
        room1.0 < old(grid)@.len(),
        room1.1 < old(grid)@.len(),
        room2.0 < old(grid)@.len(),
        room2.1 < old(grid)@.len(),
    ensures
        painted(
            old(grid)@,
            old(grid)@.len() as int,
            room1.0 as int,
            room1.1 as int,
            room2.0 as int,
            room2.1 as int,
            hallway_width as int,
            final(grid)@,
        ),
{
    let n = grid.len();
    let (x1, y1, _) = room1;
    let (x2, y2, _) = room2;
    if hallway_width == 0 {
        return;
    }
    let (hx0, hx1) = if x1 <= x2 { (x1, x2) } else { (x2, x1) };
    let hy0 = if y1 >= hallway_width - 1 { y1 - (hallway_width - 1) } else { 0 };
    fill_rect(grid, n, hx0, hx1, hy0, y1, None);
    let (vy0, vy1) = if y1 <= y2 { (y1, y2) } else { (y2, y1) };
    let vx0 = if x2 >= hallway_width - 1 { x2 - (hallway_width - 1) } else { 0 };
    fill_rect(grid, n, vx0, x2, vy0, vy1, None);
}

/// Painting a corridor a second time changes nothing: every cell it crosses
/// is already a hallway cell, and repeated hallway writes are no-ops.
pub proof fn lemma_repaint_no_change(
    g: Seq<Vec<Grid>>,
    h: Seq<Vec<Grid>>,
    k: Seq<Vec<Grid>>,
    n: int,
    x1: int,
    y1: int,
    x2: int,
    y2: int,
    w: int,
)
    requires
        is_square(g, n),
        painted(g, n, x1, y1, x2, y2, w, h),
        painted(h, n, x1, y1, x2, y2, w, k),
    ensures
        is_square(k, n),
        forall|x: int, y: int| 0 <= x < n && 0 <= y < n ==> #[trigger] at(k, x, y) == at(h, x, y),
{
}

/// Cell `(x, y)` lies on the corridor of edge `e` between the centres `cs`.
pub open spec fn on_edge(cs: Seq<Center>, e: Edge, w: int, x: int, y: int) -> bool {
    on_corridor(
        cs[e.0 as int].0 as int,
        cs[e.0 as int].1 as int,
        cs[e.1 as int].0 as int,
        cs[e.1 as int].1 as int,
        w,
        x,
        y,
    )
}

/// Cell `(x, y)` lies on the corridor of some edge among `es[0 .. k]` that
/// is marked in `marks`.
pub open spec fn marked_on(cs: Seq<Center>, es: Seq<Edge>, marks: Seq<bool>, w: int, k: int, x: int, y: int) -> bool {
    exists|q: int| 0 <= q < k && q < marks.len() && #[trigger] marks[q] && on_edge(cs, es[q], w, x, y)
}

/// Cell `(x, y)` lies on the corridor of an edge marked in `tree` or in
/// `extra`.
pub open spec fn covered(cs: Seq<Center>, es: Seq<Edge>, tree: Seq<bool>, extra: Seq<bool>, w: int, x: int, y: int) -> bool {
    marked_on(cs, es, tree, w, es.len() as int, x, y) || marked_on(cs, es, extra, w, es.len() as int, x, y)
}

/// `h` is `g` with every cell on which `on` holds turned into a hallway cell.
pub open spec fn hallways_where(g: Seq<Vec<Grid>>, n: int, on: spec_fn(int, int) -> bool, h: Seq<Vec<Grid>>) -> bool {
    &&& is_square(h, n)
    &&& forall|x: int, y: int|
        0 <= x < n && 0 <= y < n ==> #[trigger] at(h, x, y) == if on(x, y) {
            hallway_of(at(g, x, y))
        } else {
            at(g, x, y)
        }
}

proof fn lemma_mark_step(
    g0: Seq<Vec<Grid>>,
    before: Seq<Vec<Grid>>,
    after: Seq<Vec<Grid>>,
    n: int,
    cs: Seq<Center>,
    es: Seq<Edge>,
    marks: Seq<bool>,
    w: int,
    k: int,
)
    requires
        0 <= k < es.len(),
        hallways_where(g0, n, |x: int, y: int| marked_on(cs, es, marks, w, k, x, y), before),
        k < marks.len() && marks[k] ==> painted(
            before,
            n,
            cs[es[k].0 as int].0 as int,
            cs[es[k].0 as int].1 as int,
            cs[es[k].1 as int].0 as int,
            cs[es[k].1 as int].1 as int,
            w,
            after,
        ),
        !(k < marks.len() && marks[k]) ==> after == before,
    ensures
        hallways_where(g0, n, |x: int, y: int| marked_on(cs, es, marks, w, k + 1, x, y), after),
{
    assert forall|x: int, y: int| 0 <= x < n && 0 <= y < n implies #[trigger] at(after, x, y) == if marked_on(cs, es, marks, w, k + 1, x, y) {
        hallway_of(at(g0, x, y))
    } else {
        at(g0, x, y)
    } by {
        assert(at(before, x, y) == if marked_on(cs, es, marks, w, k, x, y) {
            hallway_of(at(g0, x, y))
        } else {
            at(g0, x, y)
        });
        let here = k < marks.len() && marks[k] && on_edge(cs, es[k], w, x, y);
        if marked_on(cs, es, marks, w, k, x, y) {
            let q = choose|q: int| 0 <= q < k && q < marks.len() && #[trigger] marks[q] && on_edge(cs, es[q], w, x, y);
            assert(marks[q]);
        }
        if marked_on(cs, es, marks, w, k + 1, x, y) && !here {
            let q = choose|q: int| 0 <= q < k + 1 && q < marks.len() && #[trigger] marks[q] && on_edge(cs, es[q], w, x, y);
            assert(q != k);
            assert(marks[q]);
        }
        if here {
            assert(marks[k]);
        }
    }
}

/// `h` is `g` with every cell on a drawn corridor turned into a hallway cell.
pub open spec fn corridors_painted(
    g: Seq<Vec<Grid>>,
    cs: Seq<Center>,
    es: Seq<Edge>,
    tree: Seq<bool>,
    extra: Seq<bool>,
    w: int,
    h: Seq<Vec<Grid>>,
) -> bool {
    &&& is_square(h, g.len() as int)
    &&& forall|x: int, y: int|
        0 <= x < g.len() && 0 <= y < g.len() ==> #[trigger] at(h, x, y) == if covered(cs, es, tree, extra, w, x, y) {
            hallway_of(at(g, x, y))
        } else {
            at(g, x, y)
        }
}

/// Kruskal's choice over the edges `es` of `m` centres, one mark per edge.
pub open spec fn tree_marks(es: Seq<Edge>, m: int) -> Seq<bool> {
    Seq::new(es.len(), |k: int| tree_edge(es, m, k))
}

/// `h` is `g` with the corridors of the rooms with ids `0 .. room_count`
/// added: every edge of the minimum spanning tree over their centres, and
/// each edge `k` whose mark `extra[k]` is set.
pub open spec fn corridors_added(g: Seq<Vec<Grid>>, room_count: int, w: int, extra: Seq<bool>, h: Seq<Vec<Grid>>) -> bool {
    let cs = centers_upto(g, room_count);
    &&& centers_inside(cs, g.len() as int)
    &&& exists|es: Seq<Edge>|
        sorted_candidates(cs, es) && #[trigger] corridors_painted(g, cs, es, tree_marks(es, cs.len() as int), extra, w, h)
}

/// Paints the corridor of each edge marked in `tree`, then of each edge marked
/// in `extra`.
pub fn draw_corridors(
    grid: &mut Vec<Vec<Grid>>,
    centers: &Vec<Center>,
    edges: &Vec<Edge>,
    tree: &Vec<bool>,
    extra: &Vec<bool>,
    hallway_width: usize,
)
    requires
        is_square(old(grid)@, old(grid)@.len() as int),
        centers_inside(centers@, old(grid)@.len() as int),
        edges_within(edges@, centers@.len() as int),
    ensures
        corridors_painted(old(grid)@, centers@, edges@, tree@, extra@, hallway_width as int, final(grid)@),
{
    let ghost g0 = grid@;
    let ghost w = hallway_width as int;
    let n = grid.len();
    let mut k: usize = 0;
    assert(hallways_where(g0, n as int, |x: int, y: int| marked_on(centers@, edges@, tree@, w, 0, x, y), grid@));
    while k < edges.len()
        invariant
            n == g0.len(),
            w == hallway_width,
            centers_inside(centers@, n as int),
            edges_within(edges@, centers@.len() as int),
            k <= edges@.len(),
            hallways_where(g0, n as int, |x: int, y: int| marked_on(centers@, edges@, tree@, w, k as int, x, y), grid@),
        decreases edges@.len() - k,
    {
        let ghost before = grid@;
        if k < tree.len() && tree[k] {
            let (i, j, _) = edges[k];
            connect_rooms(grid, centers[i], centers[j], hallway_width);
        }
        proof {
            lemma_mark_step(g0, before, grid@, n as int, centers@, edges@, tree@, w, k as int);
        }
        k = k + 1;
    }
    let ghost g1 = grid@;
    let mut k: usize = 0;
    assert(hallways_where(g1, n as int, |x: int, y: int| marked_on(centers@, edges@, extra@, w, 0, x, y), grid@));
    while k < edges.len()
        invariant
            n == g0.len(),
            w == hallway_width,
            centers_inside(centers@, n as int),
            edges_within(edges@, centers@.len() as int),
            k <= edges@.len(),
            hallways_where(g1, n as int, |x: int, y: int| marked_on(centers@, edges@, extra@, w, k as int, x, y), grid@),
        decreases edges@.len() - k,
    {
        let ghost before = grid@;
        if k < extra.len() && extra[k] {
            let (i, j, _) = edges[k];
            connect_rooms(grid, centers[i], centers[j], hallway_width);
        }
        proof {
            lemma_mark_step(g1, before, grid@, n as int, centers@, edges@, extra@, w, k as int);
        }
        k = k + 1;
    }
    proof {
        let len = edges@.len() as int;
        assert forall|x: int, y: int| 0 <= x < n && 0 <= y < n implies #[trigger] at(grid@, x, y) == if covered(centers@, edges@, tree@, extra@, w, x, y) {
            hallway_of(at(g0, x, y))
        } else {
            at(g0, x, y)
        } by {
            assert(at(g1, x, y) == if marked_on(centers@, edges@, tree@, w, len, x, y) {
                hallway_of(at(g0, x, y))
            } else {
                at(g0, x, y)
            });
            assert(at(grid@, x, y) == if marked_on(centers@, edges@, extra@, w, len, x, y) {
                hallway_of(at(g1, x, y))
            } else {
                at(g1, x, y)
            });
        }
    }
}

/// The corridors added to a grid depend on the grid, the room count, the
/// width and the marks alone: two results of the pass on the same inputs
/// agree on every cell.
pub proof fn lemma_corridors_determined(
    g: Seq<Vec<Grid>>,
    room_count: int,
    w: int,
    extra: Seq<bool>,
    h1: Seq<Vec<Grid>>,
    h2: Seq<Vec<Grid>>,
)
    requires
        corridors_added(g, room_count, w, extra, h1),
        corridors_added(g, room_count, w, extra, h2),
    ensures
        is_square(h1, g.len() as int),
        is_square(h2, g.len() as int),
        forall|x: int, y: int| 0 <= x < g.len() && 0 <= y < g.len() ==> #[trigger] at(h1, x, y) == at(h2, x, y),
{
    let cs = centers_upto(g, room_count);
    let m = cs.len() as int;
    let es1 = choose|es: Seq<Edge>|
        sorted_candidates(cs, es) && #[trigger] corridors_painted(g, cs, es, tree_marks(es, m), extra, w, h1);
    let es2 = choose|es: Seq<Edge>|
        sorted_candidates(cs, es) && #[trigger] corridors_painted(g, cs, es, tree_marks(es, m), extra, w, h2);
    lemma_sorted_edges_unique(es1, es2);
    assert forall|x: int, y: int| 0 <= x < g.len() && 0 <= y < g.len() implies #[trigger] at(h1, x, y) == at(h2, x, y) by {
        assert(at(h1, x, y) == at(h1, x, y));
    }
}

/// Marking a tree edge for an extra corridor as well changes nothing: its
/// corridor is drawn once in the tree pass, and drawing it again leaves every
/// cell as it is.
pub proof fn lemma_tree_edge_mark_no_change(
    g: Seq<Vec<Grid>>,
    room_count: int,
    w: int,
    es: Seq<Edge>,
    extra: Seq<bool>,
    k: int,
    h1: Seq<Vec<Grid>>,
    h2: Seq<Vec<Grid>>,
)
    requires
        sorted_candidates(centers_upto(g, room_count), es),
        0 <= k < es.len(),
        k < extra.len(),
        tree_edge(es, centers_upto(g, room_count).len() as int, k),
        corridors_added(g, room_count, w, extra.update(k, true), h1),
        corridors_added(g, room_count, w, extra.update(k, false), h2),
    ensures
        forall|x: int, y: int| 0 <= x < g.len() && 0 <= y < g.len() ==> #[trigger] at(h1, x, y) == at(h2, x, y),
{
    let cs = centers_upto(g, room_count);
    let m = cs.len() as int;
    let e1 = extra.update(k, true);
    let e2 = extra.update(k, false);
    let t = tree_marks(es, m);
    let es1 = choose|es: Seq<Edge>|
        sorted_candidates(cs, es) && #[trigger] corridors_painted(g, cs, es, tree_marks(es, m), e1, w, h1);
    let es2 = choose|es: Seq<Edge>|
        sorted_candidates(cs, es) && #[trigger] corridors_painted(g, cs, es, tree_marks(es, m), e2, w, h2);
    lemma_sorted_edges_unique(es1, es);
    lemma_sorted_edges_unique(es2, es);
    assert forall|x: int, y: int| 0 <= x < g.len() && 0 <= y < g.len() implies #[trigger] at(h1, x, y) == at(h2, x, y) by {
        assert(at(h1, x, y) == at(h1, x, y));
        assert(at(h2, x, y) == at(h2, x, y));
        let len = es.len() as int;
        if marked_on(cs, es, e1, w, len, x, y) {
            let q = choose|q: int| 0 <= q < len && q < e1.len() && #[trigger] e1[q] && on_edge(cs, es[q], w, x, y);
            if q == k {
                assert(t[k]);
                assert(marked_on(cs, es, t, w, len, x, y));
            } else {
                assert(e2[q]);
                assert(marked_on(cs, es, e2, w, len, x, y));
            }
        }
        if marked_on(cs, es, e2, w, len, x, y) {
            let q = choose|q: int| 0 <= q < len && q < e2.len() && #[trigger] e2[q] && on_edge(cs, es[q], w, x, y);
            assert(q != k);
            assert(e1[q]);
            assert(marked_on(cs, es, e1, w, len, x, y));
        }
    }
}

/// Corridors that `generate_hallways` draws are this many cells wide.
pub const HALLWAY_WIDTH: usize = 2;

/// Adds the corridors of the rooms with ids `0 .. room_count` to the grid:
/// one for every edge of the minimum spanning tree over the room centres, and
/// one for every edge `k` whose mark `extra[k]` is set, edges being ordered by
/// length. Marks past the last edge are ignored.
pub fn add_corridors(grid: Vec<Vec<Grid>>, room_count: usize, hallway_width: usize, extra: &Vec<bool>) -> (r: Vec<
    Vec<Grid>,
>)
    requires
        is_square(grid@, grid@.len() as int),
        grid@.len() <= MAX_GRID_SIDE,
    ensures
        corridors_added(grid@, room_count as int, hallway_width as int, extra@, r@),
{
    let centers = room_centers(&grid, room_count);
    let edges = sorted_edges(&centers);
    paint_plan(grid, &centers, &edges, hallway_width, extra)
}

/// Paints the tree corridors and the marked ones over the given centres and
/// their sorted candidate edges.
fn paint_plan(grid: Vec<Vec<Grid>>, centers: &Vec<Center>, edges: &Vec<Edge>, hallway_width: usize, extra: &Vec<bool>) -> (r: Vec<
    Vec<Grid>,
>)
    requires
        is_square(grid@, grid@.len() as int),
        centers_inside(centers@, grid@.len() as int),
        sorted_candidates(centers@, edges@),
    ensures
        corridors_painted(
            grid@,
            centers@,
            edges@,
            tree_marks(edges@, centers@.len() as int),
            extra@,
            hallway_width as int,
            r@,
        ),
{
    let m = centers.len();
    assert(edges_within(edges@, m as int)) by {
        assert forall|k: int| 0 <= k < edges@.len() implies (#[trigger] edges@[k]).0 < m && edges@[k].1 < m by {
            assert(edges@.contains(edges@[k]));
        }
    }
    let tree = spanning_tree(m, edges);
    assert(tree@ =~= tree_marks(edges@, m as int));
    let mut g = grid;
    draw_corridors(&mut g, centers, edges, &tree, extra, hallway_width);
    g
}

/// As `corridors_added`, with exactly one mark per candidate edge.
pub open spec fn corridors_added_each_marked(
    g: Seq<Vec<Grid>>,
    room_count: int,
    w: int,
    extra: Seq<bool>,
    h: Seq<Vec<Grid>>,
) -> bool {
    let cs = centers_upto(g, room_count);
    &&& centers_inside(cs, g.len() as int)
    &&& exists|es: Seq<Edge>|
        sorted_candidates(cs, es) && extra.len() == es.len() && #[trigger] corridors_painted(
            g,
            cs,
            es,
            tree_marks(es, cs.len() as int),
            extra,
            w,
            h,
        )
}

/// Draws one mark per edge, each set with a chance of `hallway_factor`
/// thousandths.
fn draw_marks(count: usize, hallway_factor: u32, rng: &mut StdRng) -> (r: Vec<bool>)
    ensures
        r@.len() == count,
        hallway_factor == 0 ==> forall|k: int| 0 <= k < count ==> !r@[k],
        hallway_factor >= 1000 ==> forall|k: int| 0 <= k < count ==> r@[k],
{
    let mut marks: Vec<bool> = Vec::new();
    let mut k: usize = 0;
    while k < count
        invariant
            k <= count,
            marks@.len() == k,
            hallway_factor == 0 ==> forall|q: int| 0 <= q < k ==> !marks@[q],
            hallway_factor >= 1000 ==> forall|q: int| 0 <= q < k ==> marks@[q],
        decreases count - k,
    {
        let draw = random_in(rng, 0, 1000);
        marks.push((draw as u64) < (hallway_factor as u64));
        k = k + 1;
    }
    marks
}

/// Adds corridors to a grid of rooms: the minimum spanning tree over the
/// centres of the rooms with ids `0 .. room_count`, and each other candidate
/// edge with a chance of `hallway_factor` thousandths. With a factor of 0 only
/// the tree is drawn; with 1000 or more every edge is.
pub fn synthesize_corridors(
    grid: Vec<Vec<Grid>>,
    room_count: usize,
    hallway_factor: u32,
    hallway_width: usize,
    rng: &mut StdRng,
) -> (r: Vec<Vec<Grid>>)
    requires
        is_square(grid@, grid@.len() as int),
        grid@.len() <= MAX_GRID_SIDE,
    ensures
        exists|extra: Seq<bool>|
            {
                &&& corridors_added(grid@, room_count as int, hallway_width as int, extra, r@)
                &&& corridors_added_each_marked(grid@, room_count as int, hallway_width as int, extra, r@)
                &&& hallway_factor == 0 ==> forall|k: int| 0 <= k < extra.len() ==> !extra[k]
                &&& hallway_factor >= 1000 ==> forall|k: int| 0 <= k < extra.len() ==> extra[k]
            },
{
    let centers = room_centers(&grid, room_count);
    let edges = sorted_edges(&centers);
    let extra = draw_marks(edges.len(), hallway_factor, rng);
    let ghost g0 = grid@;
    let r = paint_plan(grid, &centers, &edges, hallway_width, &extra);
    assert(corridors_painted(
        g0,
        centers@,
        edges@,
        tree_marks(edges@, centers@.len() as int),
        extra@,
        hallway_width as int,
        r@,
    ));
    assert(centers@ == centers_upto(g0, room_count as int));
    assert(corridors_added(g0, room_count as int, hallway_width as int, extra@, r@));
    assert(corridors_added_each_marked(g0, room_count as int, hallway_width as int, extra@, r@));
    assert(hallway_factor >= 1000 ==> forall|k: int| 0 <= k < extra@.len() ==> extra@[k]);
    r
}

/// Adds corridors of width `HALLWAY_WIDTH` between the rooms with ids
/// `0 .. NUMBER_OF_ROOMS`, as `synthesize_corridors` does.
pub fn generate_hallways(grid: Vec<Vec<Grid>>, hallway_factor: u32, rng: &mut StdRng) -> (r: Vec<Vec<Grid>>)
    requires
        is_square(grid@, grid@.len() as int),
        grid@.len() <= MAX_GRID_SIDE,
    ensures
        exists|extra: Seq<bool>|
            {
                &&& corridors_added(grid@, NUMBER_OF_ROOMS as int, HALLWAY_WIDTH as int, extra, r@)
                &&& corridors_added_each_marked(grid@, NUMBER_OF_ROOMS as int, HALLWAY_WIDTH as int, extra, r@)
                &&& hallway_factor == 0 ==> forall|k: int| 0 <= k < extra.len() ==> !extra[k]
                &&& hallway_factor >= 1000 ==> forall|k: int| 0 <= k < extra.len() ==> extra[k]
            },
{
    synthesize_corridors(grid, NUMBER_OF_ROOMS, hallway_factor, HALLWAY_WIDTH, rng)
}

} // verus!

//! Paths over the open cells of a grid, and the proof that the corridors
//! join every two rooms.

use vstd::prelude::*;
use crate::cell::{CellKind, Grid, MAX_GRID_SIDE, is_square, at};
use crate::corridor::{on_corridor, on_edge, corridors_added, corridors_painted, tree_marks, marked_on};
use crate::graph::{
    Center, Edge, centers_inside, centers_upto, edges_within, sets_after, initial_sets, merged, tree_edge,
    sorted_candidates, lemma_tree_spans, lemma_sets_len,
};

verus! {

/// A cell that can be walked on: a room or a hallway cell.
pub open spec fn open_cell(h: Seq<Vec<Grid>>, c: (int, int)) -> bool {
    at(h, c.0, c.1).cell_type != CellKind::Wall
}

/// From `a` to `b` is one step: the same cell, or a side neighbour.
pub open spec fn step(a: (int, int), b: (int, int)) -> bool {
    ||| a == b
    ||| (a.1 == b.1 && (a.0 - b.0 == 1 || b.0 - a.0 == 1))
    ||| (a.0 == b.0 && (a.1 - b.1 == 1 || b.1 - a.1 == 1))
}

/// `p` is a walk over open cells of the grid of side `n`.
pub open spec fn is_path(h: Seq<Vec<Grid>>, n: int, p: Seq<(int, int)>) -> bool {
    &&& p.len() >= 1
    &&& forall|i: int|
        0 <= i < p.len() ==> 0 <= (#[trigger] p[i]).0 < n && 0 <= p[i].1 < n && open_cell(h, p[i])
    &&& forall|i: int| 0 <= i < p.len() - 1 ==> step(#[trigger] p[i], p[i + 1])
}

/// Some walk over open cells leads from `a` to `b`.
pub open spec fn linked(h: Seq<Vec<Grid>>, n: int, a: (int, int), b: (int, int)) -> bool {
    exists|p: Seq<(int, int)>| is_path(h, n, p) && p[0] == a && p[p.len() - 1] == b
}

proof fn lemma_linked_here(h: Seq<Vec<Grid>>, n: int, a: (int, int))
    requires
        0 <= a.0 < n,
        0 <= a.1 < n,
        open_cell(h, a),
    ensures
        linked(h, n, a, a),
{
    let p = seq![a];
    assert(is_path(h, n, p) && p[0] == a && p[p.len() - 1] == a);
}

proof fn lemma_linked_back(h: Seq<Vec<Grid>>, n: int, a: (int, int), b: (int, int))
    requires
        linked(h, n, a, b),
    ensures
        linked(h, n, b, a),
{
    let p = choose|p: Seq<(int, int)>| is_path(h, n, p) && p[0] == a && p[p.len() - 1] == b;
    let l = p.len() as int;
    let q = Seq::new(l as nat, |i: int| p[l - 1 - i]);
    assert forall|i: int| 0 <= i < q.len() - 1 implies step(#[trigger] q[i], q[i + 1]) by {
        assert(step(p[l - 2 - i], p[l - 1 - i]));
    }
    assert forall|i: int| 0 <= i < q.len() implies 0 <= (#[trigger] q[i]).0 < n && 0 <= q[i].1 < n && open_cell(h, q[i]) by {
        assert(q[i] == p[l - 1 - i]);
    }
    assert(is_path(h, n, q) && q[0] == b && q[q.len() - 1] == a);
}

proof fn lemma_linked_on(h: Seq<Vec<Grid>>, n: int, a: (int, int), b: (int, int), c: (int, int))
    requires
        linked(h, n, a, b),
        linked(h, n, b, c),
    ensures
        linked(h, n, a, c),
{
    let p = choose|p: Seq<(int, int)>| is_path(h, n, p) && p[0] == a && p[p.len() - 1] == b;
    let q = choose|q: Seq<(int, int)>| is_path(h, n, q) && q[0] == b && q[q.len() - 1] == c;
    let r = p + q;
    assert forall|i: int| 0 <= i < r.len() - 1 implies step(#[trigger] r[i], r[i + 1]) by {
        if i < p.len() - 1 {
            assert(step(p[i], p[i + 1]));
        } else if i == p.len() - 1 {
            assert(r[i] == b && r[i + 1] == b);
        } else {
            assert(step(q[i - p.len()], q[i - p.len() + 1]));
        }
    }
    assert forall|i: int| 0 <= i < r.len() implies 0 <= (#[trigger] r[i]).0 < n && 0 <= r[i].1 < n && open_cell(h, r[i]) by {
        if i < p.len() {
            assert(r[i] == p[i]);
        } else {
            assert(r[i] == q[i - p.len()]);
        }
    }
    assert(is_path(h, n, r) && r[0] == a && r[r.len() - 1] == c);
}

proof fn lemma_row_linked(h: Seq<Vec<Grid>>, n: int, y: int, xa: int, xb: int)
    requires
        0 <= xa <= xb < n,
        0 <= y < n,
        forall|x: int| xa <= x <= xb ==> #[trigger] open_cell(h, (x, y)),
    ensures
        linked(h, n, (xa, y), (xb, y)),
{
    let p = Seq::new((xb - xa + 1) as nat, |i: int| (xa + i, y));
    assert forall|i: int| 0 <= i < p.len() implies 0 <= (#[trigger] p[i]).0 < n && 0 <= p[i].1 < n && open_cell(h, p[i]) by {
        assert(open_cell(h, (xa + i, y)));
    }
    assert(is_path(h, n, p) && p[0] == (xa, y) && p[p.len() - 1] == (xb, y));
}

proof fn lemma_column_linked(h: Seq<Vec<Grid>>, n: int, x: int, ya: int, yb: int)
    requires
        0 <= ya <= yb < n,
        0 <= x < n,
        forall|y: int| ya <= y <= yb ==> #[trigger] open_cell(h, (x, y)),
    ensures
        linked(h, n, (x, ya), (x, yb)),
{
    let p = Seq::new((yb - ya + 1) as nat, |i: int| (x, ya + i));
    assert forall|i: int| 0 <= i < p.len() implies 0 <= (#[trigger] p[i]).0 < n && 0 <= p[i].1 < n && open_cell(h, p[i]) by {
        assert(open_cell(h, (x, ya + i)));
    }
    assert(is_path(h, n, p) && p[0] == (x, ya) && p[p.len() - 1] == (x, yb));
}

/// Where every cell of a corridor is open, the corridor is a walk between its
/// two ends.
pub proof fn lemma_corridor_linked(h: Seq<Vec<Grid>>, n: int, x1: int, y1: int, x2: int, y2: int, w: int)
    requires
        1 <= w,
        0 <= x1 < n,
        0 <= y1 < n,
        0 <= x2 < n,
        0 <= y2 < n,
        forall|x: int, y: int|
            0 <= x < n && 0 <= y < n && on_corridor(x1, y1, x2, y2, w, x, y) ==> #[trigger] open_cell(h, (x, y)),
    ensures
        linked(h, n, (x1, y1), (x2, y2)),
{
    assert forall|x: int| (if x1 <= x2 { x1 } else { x2 }) <= x <= (if x1 <= x2 { x2 } else { x1 }) implies #[trigger] open_cell(h, (x, y1)) by {
        assert(on_corridor(x1, y1, x2, y2, w, x, y1));
    }
    assert forall|y: int| (if y1 <= y2 { y1 } else { y2 }) <= y <= (if y1 <= y2 { y2 } else { y1 }) implies #[trigger] open_cell(h, (x2, y)) by {
        assert(on_corridor(x1, y1, x2, y2, w, x2, y));
    }
    if x1 <= x2 {
        lemma_row_linked(h, n, y1, x1, x2);
    } else {
        lemma_row_linked(h, n, y1, x2, x1);
        lemma_linked_back(h, n, (x2, y1), (x1, y1));
    }
    if y1 <= y2 {
        lemma_column_linked(h, n, x2, y1, y2);
    } else {
        lemma_column_linked(h, n, x2, y2, y1);
        lemma_linked_back(h, n, (x2, y2), (x2, y1));
    }
    lemma_linked_on(h, n, (x1, y1), (x2, y1), (x2, y2));
}

/// The cell of a centre.
pub open spec fn spot(c: Center) -> (int, int) {
    (c.0 as int, c.1 as int)
}

/// Every cell on the corridor of an edge of Kruskal's tree is open in `h`.
pub open spec fn tree_corridors_open(h: Seq<Vec<Grid>>, n: int, cs: Seq<Center>, es: Seq<Edge>, w: int) -> bool {
    forall|k: int, x: int, y: int|
        0 <= k < es.len() && tree_edge(es, cs.len() as int, k) && 0 <= x < n && 0 <= y < n && #[trigger] on_edge(
            cs,
            es[k],
            w,
            x,
            y,
        ) ==> open_cell(h, (x, y))
}

/// Centres that Kruskal's algorithm has put in one set, after any number of
/// edges, are linked in `h`.
proof fn lemma_sets_linked(h: Seq<Vec<Grid>>, n: int, cs: Seq<Center>, es: Seq<Edge>, w: int, k: int)
    requires
        edges_within(es, cs.len() as int),
        centers_inside(cs, n),
        cs.len() <= usize::MAX,
        1 <= w,
        0 <= k <= es.len(),
        tree_corridors_open(h, n, cs, es, w),
    ensures
        forall|a: int, b: int|
            0 <= a < cs.len() && 0 <= b < cs.len() && a != b && #[trigger] sets_after(es, cs.len() as int, k)[a]
                == #[trigger] sets_after(es, cs.len() as int, k)[b] ==> linked(h, n, spot(cs[a]), spot(cs[b])),
    decreases k,
{
    let m = cs.len() as int;
    if k == 0 {
        assert forall|a: int, b: int|
            0 <= a < m && 0 <= b < m && a != b implies #[trigger] sets_after(es, m, 0)[a]
            != #[trigger] sets_after(es, m, 0)[b] by {
            assert(initial_sets(m)[a] == a as usize && initial_sets(m)[b] == b as usize);
        }
    } else {
        lemma_sets_linked(h, n, cs, es, w, k - 1);
        lemma_sets_len(es, m, k - 1);
        let s = sets_after(es, m, k - 1);
        let e = es[k - 1];
        let i = e.0 as int;
        let j = e.1 as int;
        assert(es[k - 1].0 < m && es[k - 1].1 < m);
        if s[i] != s[j] {
            let f = s[j];
            let t = s[i];
            let ci = spot(cs[i]);
            let cj = spot(cs[j]);
            assert(cs[i].0 < n && cs[i].1 < n && cs[j].0 < n && cs[j].1 < n);
            assert forall|x: int, y: int|
                0 <= x < n && 0 <= y < n && on_corridor(ci.0, ci.1, cj.0, cj.1, w, x, y) implies #[trigger] open_cell(
                h,
                (x, y),
            ) by {
                assert(on_edge(cs, es[k - 1], w, x, y));
            }
            lemma_corridor_linked(h, n, ci.0, ci.1, cj.0, cj.1, w);
            assert(on_edge(cs, es[k - 1], w, ci.0, ci.1));
            assert(on_edge(cs, es[k - 1], w, cj.0, cj.1));
            lemma_linked_here(h, n, ci);
            lemma_linked_here(h, n, cj);
            lemma_linked_back(h, n, ci, cj);
            assert(sets_after(es, m, k) == merged(s, f, t));
            assert forall|a: int, b: int|
                0 <= a < m && 0 <= b < m && a != b && #[trigger] sets_after(es, m, k)[a]
                    == #[trigger] sets_after(es, m, k)[b] implies linked(h, n, spot(cs[a]), spot(cs[b])) by {
                let ca = spot(cs[a]);
                let cb = spot(cs[b]);
                assert(merged(s, f, t)[a] == if s[a] == f { t } else { s[a] });
                assert(merged(s, f, t)[b] == if s[b] == f { t } else { s[b] });
                if s[a] == s[b] {
                } else if s[a] == f {
                    assert(s[b] == t);
                    if a != j {
                        assert(linked(h, n, ca, cj));
                    }
                    if b != i {
                        assert(linked(h, n, ci, cb));
                    }
                    lemma_linked_on(h, n, ca, cj, ci);
                    lemma_linked_on(h, n, ca, ci, cb);
                } else {
                    assert(s[a] == t && s[b] == f);
                    if a != i {
                        assert(linked(h, n, ca, ci));
                    }
                    if b != j {
                        assert(linked(h, n, cj, cb));
                    }
                    lemma_linked_on(h, n, ca, ci, cj);
                    lemma_linked_on(h, n, ca, cj, cb);
                }
            }
        }
    }
}

proof fn lemma_centers_count(g: Seq<Vec<Grid>>, k: int)
    requires
        0 <= k,
    ensures
        centers_upto(g, k).len() <= k,
    decreases k,
{
    if k > 0 {
        lemma_centers_count(g, k - 1);
    }
}

/// Once the corridors are added with a width of at least one, every two rooms
/// are joined by a walk over room and hallway cells from the centre of one to
/// the centre of the other.
pub proof fn lemma_rooms_connected(
    g: Seq<Vec<Grid>>,
    h: Seq<Vec<Grid>>,
    room_count: usize,
    w: usize,
    extra: Seq<bool>,
    a: int,
    b: int,
)
    requires
        is_square(g, g.len() as int),
        g.len() <= MAX_GRID_SIDE,
        1 <= w,
        corridors_added(g, room_count as int, w as int, extra, h),
        0 <= a < b < centers_upto(g, room_count as int).len(),
    ensures
        linked(
            h,
            g.len() as int,
            spot(centers_upto(g, room_count as int)[a]),
            spot(centers_upto(g, room_count as int)[b]),
        ),
{
    let n = g.len() as int;
    let cs = centers_upto(g, room_count as int);
    let m = cs.len() as int;
    let es = choose|es: Seq<Edge>|
        sorted_candidates(cs, es) && #[trigger] corridors_painted(g, cs, es, tree_marks(es, m), extra, w as int, h);
    lemma_centers_count(g, room_count as int);
    assert(edges_within(es, m)) by {
        assert forall|k: int| 0 <= k < es.len() implies (#[trigger] es[k]).0 < m && es[k].1 < m by {
            assert(es.contains(es[k]));
        }
    }
    assert forall|k: int, x: int, y: int|
        0 <= k < es.len() && tree_edge(es, m, k) && 0 <= x < n && 0 <= y < n && #[trigger] on_edge(cs, es[k], w as int, x, y)
        implies open_cell(h, (x, y)) by {
        assert(tree_marks(es, m)[k]);
        assert(marked_on(cs, es, tree_marks(es, m), w as int, es.len() as int, x, y));
    }
    lemma_tree_spans(cs, es, a, b);
    lemma_sets_linked(h, n, cs, es, w as int, es.len() as int);
    assert(sets_after(es, m, es.len() as int)[a] == sets_after(es, m, es.len() as int)[b]);
}

} // verus!

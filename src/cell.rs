//! Cells, grids of cells, and rectangle fills on a grid.

use vstd::prelude::*;

verus! {

/// The largest side a grid can have, so that the area of any rectangle of a
/// grid fits in `usize` on every target.
pub const MAX_GRID_SIDE: usize = 65535;

/// The squared Euclidean distance between two points.
pub open spec fn dist2(ax: int, ay: int, bx: int, by: int) -> int {
    (ax - bx) * (ax - bx) + (ay - by) * (ay - by)
}

pub proof fn lemma_square_le(a: int, b: int)
    requires
        0 <= a <= b,
    ensures
        a * a <= b * b,
{
    assert(a * a <= b * b) by (nonlinear_arith)
        requires
            0 <= a <= b,
    ;
}

/// The squared distance between two points of a grid.
pub fn square_distance(ax: usize, ay: usize, bx: usize, by: usize) -> (r: u64)
    requires
        ax <= MAX_GRID_SIDE,
        ay <= MAX_GRID_SIDE,
        bx <= MAX_GRID_SIDE,
        by <= MAX_GRID_SIDE,
    ensures
        r == dist2(ax as int, ay as int, bx as int, by as int),
        r <= 2 * MAX_GRID_SIDE * MAX_GRID_SIDE,
{
    let dx: u64 = if ax >= bx { (ax - bx) as u64 } else { (bx - ax) as u64 };
    let dy: u64 = if ay >= by { (ay - by) as u64 } else { (by - ay) as u64 };
    proof {
        lemma_square_le(dx as int, MAX_GRID_SIDE as int);
        lemma_square_le(dy as int, MAX_GRID_SIDE as int);
        assert((ax - bx) * (ax - bx) == dx * dx) by (nonlinear_arith)
            requires
                dx == ax - bx || dx == bx - ax,
        ;
        assert((ay - by) * (ay - by) == dy * dy) by (nonlinear_arith)
            requires
                dy == ay - by || dy == by - ay,
        ;
    }
    dx * dx + dy * dy
}

/// What occupies a cell.
#[derive(Clone, Copy, Debug, PartialEq, Eq, Structural)]
pub enum CellKind {
    Wall,
    Room,
    Hallway,
}

/// One cell of a map: its kind, and the room it was stamped with.
///
/// `room_id` and `room_size` are kept when a corridor turns a room cell into a
/// hallway cell; on cells never stamped by a room they are 0.
#[derive(Clone, Copy, Debug, PartialEq, Eq, Structural)]
pub struct Grid {
    pub cell_type: CellKind,
    pub room_id: usize,
    pub is_merged: bool,
    pub room_size: usize,
}

/// A wall cell that belongs to no room.
pub open spec fn wall_cell() -> Grid {
    Grid { cell_type: CellKind::Wall, room_id: 0, is_merged: false, room_size: 0 }
}

/// A cell of room `id`, whose area is `size`.
pub open spec fn room_cell(id: int, size: int) -> Grid {
    Grid { cell_type: CellKind::Room, room_id: id as usize, is_merged: false, room_size: size as usize }
}

/// The cell after a corridor crossed it: only its kind changes.
pub open spec fn hallway_of(c: Grid) -> Grid {
    Grid { cell_type: CellKind::Hallway, ..c }
}

impl Grid {
    /// A wall cell that belongs to no room.
    pub fn wall() -> (r: Grid)
        ensures
            r == wall_cell(),
    {
        Grid { cell_type: CellKind::Wall, room_id: 0, is_merged: false, room_size: 0 }
    }

    /// The kind of this cell.
    pub fn cell_type(&self) -> (r: CellKind)
        ensures
            r == self.cell_type,
    {
        self.cell_type
    }

    /// Whether this cell is a room cell.
    pub fn is_room(&self) -> (r: bool)
        ensures
            r == (self.cell_type == CellKind::Room),
    {
        match self.cell_type {
            CellKind::Room => true,
            _ => false,
        }
    }
}

/// A square grid of side `n`, addressed `g[y][x]`.
pub open spec fn is_square(g: Seq<Vec<Grid>>, n: int) -> bool {
    &&& g.len() == n
    &&& forall|y: int| 0 <= y < n ==> (#[trigger] g[y])@.len() == n
}

/// The cell at column `x`, row `y`.
pub open spec fn at(g: Seq<Vec<Grid>>, x: int, y: int) -> Grid {
    g[y]@[x]
}

/// `(x, y)` lies in the rectangle `[x0, x1] × [y0, y1]`.
pub open spec fn in_rect(x: int, y: int, x0: int, x1: int, y0: int, y1: int) -> bool {
    x0 <= x <= x1 && y0 <= y <= y1
}

/// A grid of side `n` in which every cell is a wall.
pub fn new_grid(n: usize) -> (g: Vec<Vec<Grid>>)
    ensures
        is_square(g@, n as int),
        forall|x: int, y: int| 0 <= x < n && 0 <= y < n ==> #[trigger] at(g@, x, y) == wall_cell(),
{
    let mut g: Vec<Vec<Grid>> = Vec::new();
    let mut y: usize = 0;
    while y < n
        invariant
            y <= n,
            g@.len() == y,
            forall|yy: int| 0 <= yy < y ==> (#[trigger] g@[yy])@.len() == n,
            forall|x: int, yy: int| 0 <= x < n && 0 <= yy < y ==> #[trigger] at(g@, x, yy) == wall_cell(),
        decreases n - y,
    {
        let mut row: Vec<Grid> = Vec::new();
        let mut x: usize = 0;
        while x < n
            invariant
                x <= n,
                row@.len() == x,
                forall|xx: int| 0 <= xx < x ==> #[trigger] row@[xx] == wall_cell(),
            decreases n - x,
        {
            row.push(Grid::wall());
            x = x + 1;
        }
        let ghost prev = g@;
        g.push(row);
        assert forall|x: int, yy: int| 0 <= x < n && 0 <= yy <= y implies #[trigger] at(g@, x, yy) == wall_cell() by {
            if yy < y {
                assert(g@[yy] == prev[yy]);
                assert(at(prev, x, yy) == wall_cell());
            } else {
                assert(g@[yy]@[x] == row@[x]);
            }
        }
        y = y + 1;
    }
    g
}

/// What a fill leaves in a cell: the given cell, or the old cell turned into
/// a hallway.
pub open spec fn filled(c: Grid, with: Option<Grid>) -> Grid {
    match with {
        Some(v) => v,
        None => hallway_of(c),
    }
}

/// Rewrites every cell of the rectangle `[x0, x1] × [y0, y1]`, to `with` where
/// that is given and to a hallway otherwise, and leaves the others as they were.
pub fn fill_rect(g: &mut Vec<Vec<Grid>>, n: usize, x0: usize, x1: usize, y0: usize, y1: usize, with: Option<Grid>)
    requires
        is_square(old(g)@, n as int),
        x0 <= x1 < n,
        y0 <= y1 < n,
    ensures
        is_square(final(g)@, n as int),
        forall|x: int, y: int|
            0 <= x < n && 0 <= y < n ==> #[trigger] at(final(g)@, x, y) == if in_rect(x, y, x0 as int, x1 as int, y0 as int, y1 as int) {
                filled(at(old(g)@, x, y), with)
            } else {
                at(old(g)@, x, y)
            },
{
    let ghost g0 = g@;
    let mut y: usize = y0;
    while y <= y1
        invariant
            is_square(g@, n as int),
            x0 <= x1 < n,
            y1 < n,
            y0 <= y <= y1 + 1,
            forall|x: int, yy: int|
                0 <= x < n && 0 <= yy < n ==> #[trigger] at(g@, x, yy) == if in_rect(x, yy, x0 as int, x1 as int, y0 as int, y - 1) {
                    filled(at(g0, x, yy), with)
                } else {
                    at(g0, x, yy)
                },
        decreases y1 + 1 - y,
    {
        let ghost gb = g@;
        let mut row: Vec<Grid> = Vec::new();
        std::mem::swap(&mut row, &mut g[y]);
        let ghost r0 = row@;
        let mut x: usize = x0;
        while x <= x1
            invariant
                row@.len() == n,
                r0.len() == n,
                x1 < n,
                x0 <= x <= x1 + 1,
                forall|xx: int| 0 <= xx < n ==> #[trigger] row@[xx] == if x0 <= xx < x {
                    filled(r0[xx], with)
                } else {
                    r0[xx]
                },
            decreases x1 + 1 - x,
        {
            let c = row[x];
            let v = match with {
                Some(v) => v,
                None => Grid { cell_type: CellKind::Hallway, ..c },
            };
            row.set(x, v);
            x = x + 1;
        }
        let ghost prev = g@;
        g.set(y, row);
        assert forall|x: int, yy: int| 0 <= x < n && 0 <= yy < n implies #[trigger] at(g@, x, yy) == if in_rect(x, yy, x0 as int, x1 as int, y0 as int, y as int) {
            filled(at(g0, x, yy), with)
        } else {
            at(g0, x, yy)
        } by {
            if yy != y {
                assert(g@[yy] == gb[yy]);
                assert(at(g@, x, yy) == at(gb, x, yy));
            } else {
                assert(g@[yy]@[x] == row@[x]);
                assert(r0[x] == at(gb, x, yy));
            }
        }
        y = y + 1;
    }
}

} // verus!

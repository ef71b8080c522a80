//! Placing rectangular rooms on a grid under the overlap and separation rules.

use vstd::prelude::*;
use rand::rngs::StdRng;
use crate::random::random_in;
use crate::cell::{
    CellKind, Grid, MAX_GRID_SIDE, is_square, at, dist2, wall_cell, room_cell, fill_rect, new_grid,
    square_distance, lemma_square_le,
};

verus! {

/// A rectangle of room cells: its id, top-left corner, width and height.
#[derive(Clone, Copy, Debug, PartialEq, Eq, Structural)]
pub struct Room {
    pub id: usize,
    pub start_x: usize,
    pub start_y: usize,
    pub width: usize,
    pub height: usize,
}

/// Cell `(x, y)` lies in the room's rectangle.
pub open spec fn in_room(r: Room, x: int, y: int) -> bool {
    r.start_x <= x < r.start_x + r.width && r.start_y <= y < r.start_y + r.height
}

/// The number of cells of the room.
pub open spec fn area(r: Room) -> int {
    r.width * r.height
}

/// The room is a non-empty rectangle inside a grid of side `n`.
pub open spec fn fits(r: Room, n: int) -> bool {
    &&& 1 <= r.width
    &&& 1 <= r.height
    &&& r.start_x + r.width <= n
    &&& r.start_y + r.height <= n
}

/// Some cell of the room's rectangle is already a room cell.
pub open spec fn overlaps_room(g: Seq<Vec<Grid>>, r: Room) -> bool {
    exists|x: int, y: int| in_room(r, x, y) && (#[trigger] at(g, x, y)).cell_type == CellKind::Room
}

/// Some room cell of the grid of side `n` lies at a Euclidean distance,
/// rounded down, under `d` of `(sx, sy)`: for whole numbers, a squared distance
/// under `d * d`.
pub open spec fn near_room(g: Seq<Vec<Grid>>, n: int, sx: int, sy: int, d: int) -> bool {
    exists|x: int, y: int|
        0 <= x < n && 0 <= y < n && (#[trigger] at(g, x, y)).cell_type == CellKind::Room && dist2(x, y, sx, sy) < d * d
}

/// The grid after stamping room `r` on `g`.
pub open spec fn stamped(g: Seq<Vec<Grid>>, n: int, r: Room, h: Seq<Vec<Grid>>) -> bool {
    &&& is_square(h, n)
    &&& forall|x: int, y: int|
        0 <= x < n && 0 <= y < n ==> #[trigger] at(h, x, y) == if in_room(r, x, y) {
            room_cell(r.id as int, area(r))
        } else {
            at(g, x, y)
        }
}

proof fn lemma_area_bound(w: int, h: int, n: int)
    requires
        0 <= w <= n,
        0 <= h <= n,
        n <= MAX_GRID_SIDE,
    ensures
        w * h <= MAX_GRID_SIDE * MAX_GRID_SIDE,
{
    assert(w * h <= n * n) by (nonlinear_arith)
        requires
            0 <= w <= n,
            0 <= h <= n,
    ;
    lemma_square_le(n, MAX_GRID_SIDE as int);
}

/// Whether some cell of the room's rectangle is already a room cell.
pub fn overlaps(grid: &Vec<Vec<Grid>>, room: Room) -> (r: bool)
    requires
        is_square(grid@, grid@.len() as int),
        grid@.len() <= MAX_GRID_SIDE,
        fits(room, grid@.len() as int),
    ensures
        r == overlaps_room(grid@, room),
{
    let mut y: usize = room.start_y;
    while y < room.start_y + room.height
        invariant
            is_square(grid@, grid@.len() as int),
            grid@.len() <= MAX_GRID_SIDE,
            fits(room, grid@.len() as int),
            room.start_y <= y <= room.start_y + room.height,
            forall|xx: int, yy: int|
                in_room(room, xx, yy) && yy < y ==> (#[trigger] at(grid@, xx, yy)).cell_type != CellKind::Room,
        decreases room.start_y + room.height - y,
    {
        let mut x: usize = room.start_x;
        while x < room.start_x + room.width
            invariant
                is_square(grid@, grid@.len() as int),
                grid@.len() <= MAX_GRID_SIDE,
                fits(room, grid@.len() as int),
                room.start_y <= y < room.start_y + room.height,
                room.start_x <= x <= room.start_x + room.width,
                forall|xx: int, yy: int|
                    in_room(room, xx, yy) && (yy < y || (yy == y && xx < x)) ==> (#[trigger] at(
                        grid@,
                        xx,
                        yy,
                    )).cell_type != CellKind::Room,
            decreases room.start_x + room.width - x,
        {
            if grid[y][x].is_room() {
                assert(in_room(room, x as int, y as int) && at(grid@, x as int, y as int).cell_type
                    == CellKind::Room);
                return true;
            }
            x = x + 1;
        }
        y = y + 1;
    }
    false
}

/// Whether some room cell of the grid lies at a distance under `min_distance`
/// of `(start_x, start_y)`.
pub fn too_close(grid: &Vec<Vec<Grid>>, start_x: usize, start_y: usize, min_distance: usize) -> (r: bool)
    requires
        is_square(grid@, grid@.len() as int),
        grid@.len() <= MAX_GRID_SIDE,
        start_x < grid@.len(),
        start_y < grid@.len(),
    ensures
        r == near_room(grid@, grid@.len() as int, start_x as int, start_y as int, min_distance as int),
{
    let n = grid.len();
    proof {
        lemma_square_le(min_distance as int, 0xFFFF_FFFF_FFFF_FFFF);
    }
    let limit: u128 = (min_distance as u128) * (min_distance as u128);
    let mut y: usize = 0;
    while y < n
        invariant
            n == grid@.len(),
            is_square(grid@, n as int),
            n <= MAX_GRID_SIDE,
            start_x < n,
            start_y < n,
            limit == min_distance * min_distance,
            y <= n,
            forall|xx: int, yy: int|
                0 <= xx < n && 0 <= yy < y && (#[trigger] at(grid@, xx, yy)).cell_type == CellKind::Room
                    ==> dist2(xx, yy, start_x as int, start_y as int) >= limit,
        decreases n - y,
    {
        let mut x: usize = 0;
        while x < n
            invariant
                n == grid@.len(),
                is_square(grid@, n as int),
                n <= MAX_GRID_SIDE,
                start_x < n,
                start_y < n,
                limit == min_distance * min_distance,
                y < n,
                x <= n,
                forall|xx: int, yy: int|
                    0 <= xx < n && 0 <= yy < n && (yy < y || (yy == y && xx < x)) && (#[trigger] at(
                        grid@,
                        xx,
                        yy,
                    )).cell_type == CellKind::Room ==> dist2(xx, yy, start_x as int, start_y as int) >= limit,
            decreases n - x,
        {
            if grid[y][x].is_room() {
                let d = square_distance(x, y, start_x, start_y);
                if (d as u128) < limit {
                    assert(at(grid@, x as int, y as int).cell_type == CellKind::Room);
                    return true;
                }
            }
            x = x + 1;
        }
        y = y + 1;
    }
    false
}

/// One placement attempt: stamps `room` on the grid when none of its cells is
/// already a room cell and no room cell lies at a distance under
/// `min_distance` of its top-left corner. Returns whether it was stamped;
/// otherwise the grid is left as it was.
pub fn try_place_room(grid: &mut Vec<Vec<Grid>>, room: Room, min_distance: usize) -> (placed: bool)
    requires
        is_square(old(grid)@, old(grid)@.len() as int),
        old(grid)@.len() <= MAX_GRID_SIDE,
        fits(room, old(grid)@.len() as int),
    ensures
        placed == (!overlaps_room(old(grid)@, room) && !near_room(
            old(grid)@,
            old(grid)@.len() as int,
            room.start_x as int,
            room.start_y as int,
            min_distance as int,
        )),
        placed ==> stamped(old(grid)@, old(grid)@.len() as int, room, final(grid)@),
        !placed ==> final(grid)@ == old(grid)@,
{
    if overlaps(grid, room) {
        return false;
    }
    if too_close(grid, room.start_x, room.start_y, min_distance) {
        return false;
    }
    let n = grid.len();
    proof {
        lemma_area_bound(room.width as int, room.height as int, n as int);
    }
    let cell = Grid { cell_type: CellKind::Room, room_id: room.id, is_merged: false, room_size: room.width * room.height };
    fill_rect(
        grid,
        n,
        room.start_x,
        room.start_x + room.width - 1,
        room.start_y,
        room.start_y + room.height - 1,
        Some(cell),
    );
    true
}

/// Why a map cannot be generated.
#[derive(Clone, Copy, Debug, PartialEq, Eq, Structural)]
pub enum GenerateError {
    /// The room sizes leave no size, or no position, to draw from.
    InvalidConfiguration,
}

/// Room sides can be drawn from `[min_room_size, max_room_size)`, and every
/// such room has a position in a grid of side `grid_size`, which is at most
/// `MAX_GRID_SIDE`.
pub open spec fn valid_sizes(grid_size: int, min_room_size: int, max_room_size: int) -> bool {
    1 <= min_room_size < max_room_size <= grid_size <= MAX_GRID_SIDE
}

/// The grid of side `n` holds exactly the rooms `rooms`, each stamped whole,
/// and every other cell is a wall; the rooms' ids increase; and no room's
/// top-left corner lies at a distance under `d` of a cell of an earlier room.
pub open spec fn laid_out(g: Seq<Vec<Grid>>, n: int, rooms: Seq<Room>, d: int) -> bool {
    &&& is_square(g, n)
    &&& forall|k: int| 0 <= k < rooms.len() ==> fits(#[trigger] rooms[k], n)
    &&& forall|i: int, j: int| 0 <= i < j < rooms.len() ==> (#[trigger] rooms[i]).id < (#[trigger] rooms[j]).id
    &&& forall|i: int, j: int, x: int, y: int|
        0 <= i < j < rooms.len() && #[trigger] in_room(rooms[i], x, y) ==> dist2(
            x,
            y,
            (#[trigger] rooms[j]).start_x as int,
            rooms[j].start_y as int,
        ) >= d * d
    &&& forall|k: int, x: int, y: int|
        0 <= k < rooms.len() && #[trigger] in_room(rooms[k], x, y) ==> at(g, x, y) == room_cell(
            rooms[k].id as int,
            area(rooms[k]),
        )
    &&& forall|x: int, y: int|
        0 <= x < n && 0 <= y < n && (forall|k: int| 0 <= k < rooms.len() ==> !in_room(#[trigger] rooms[k], x, y))
            ==> #[trigger] at(g, x, y) == wall_cell()
}

/// The rooms have ids under `room_count` and sides drawn from
/// `[min_room_size, max_room_size)`; where `room_count` is positive, the first
/// room, room 0, is among them.
pub open spec fn rooms_drawn(rooms: Seq<Room>, room_count: int, min_room_size: int, max_room_size: int) -> bool {
    &&& rooms.len() <= room_count
    &&& room_count > 0 ==> rooms.len() >= 1 && rooms[0].id == 0
    &&& forall|k: int|
        0 <= k < rooms.len() ==> {
            &&& (#[trigger] rooms[k]).id < room_count
            &&& min_room_size <= rooms[k].width < max_room_size
            &&& min_room_size <= rooms[k].height < max_room_size
        }
}

/// Places up to `room_count` rooms, with ids `0 .. room_count`, on a grid of
/// side `grid_size` that is all walls at first. Each room gets up to
/// `max_attempts` draws of a size and a position (at least one); the first
/// draw that passes `try_place_room` is stamped, and a room whose draws all
/// fail is left out.
pub fn place_rooms(
    grid_size: usize,
    room_count: usize,
    min_room_size: usize,
    max_room_size: usize,
    min_distance: usize,
    max_attempts: usize,
    rng: &mut StdRng,
) -> (r: Result<Vec<Vec<Grid>>, GenerateError>)
    ensures
        r is Err <==> !valid_sizes(grid_size as int, min_room_size as int, max_room_size as int),
        r is Err ==> r == Err::<Vec<Vec<Grid>>, GenerateError>(GenerateError::InvalidConfiguration),
        r is Ok ==> exists|rooms: Seq<Room>|
            laid_out(r->Ok_0@, grid_size as int, rooms, min_distance as int) && rooms_drawn(
                rooms,
                room_count as int,
                min_room_size as int,
                max_room_size as int,
            ),
{
    if !(1 <= min_room_size && min_room_size < max_room_size && max_room_size <= grid_size && grid_size
        <= MAX_GRID_SIDE) {
        return Err(GenerateError::InvalidConfiguration);
    }
    let n = grid_size;
    let mut grid = new_grid(n);
    let ghost mut rooms: Seq<Room> = Seq::empty();
    let budget: usize = if max_attempts == 0 { 1 } else { max_attempts };
    let mut room_id: usize = 0;
    while room_id < room_count
        invariant
            valid_sizes(n as int, min_room_size as int, max_room_size as int),
            n <= MAX_GRID_SIDE,
            room_id <= room_count,
            1 <= budget,
            laid_out(grid@, n as int, rooms, min_distance as int),
            rooms_drawn(rooms, room_id as int, min_room_size as int, max_room_size as int),
        decreases room_count - room_id,
    {
        let mut attempts: usize = 0;
        let mut placed = false;
        while !placed && attempts < budget
            invariant
                valid_sizes(n as int, min_room_size as int, max_room_size as int),
                n <= MAX_GRID_SIDE,
                room_id < room_count,
                attempts <= budget,
                1 <= budget,
                room_id == 0 && attempts > 0 ==> placed,
                room_id == 0 && !placed ==> rooms.len() == 0,
                laid_out(grid@, n as int, rooms, min_distance as int),
                rooms_drawn(rooms, room_id + if placed { 1int } else { 0int }, min_room_size as int, max_room_size as int),
            decreases budget - attempts,
        {
            attempts = attempts + 1;
            let room_width = random_in(rng, min_room_size, max_room_size);
            let room_height = random_in(rng, min_room_size, max_room_size);
            let start_x = random_in(rng, 0, n - room_width);
            let start_y = random_in(rng, 0, n - room_height);
            let room = Room { id: room_id, start_x, start_y, width: room_width, height: room_height };
            let ghost g0 = grid@;
            proof {
                if rooms.len() == 0 {
                    lemma_no_room_cells(g0, n as int, rooms, min_distance as int, room);
                }
            }
            if try_place_room(&mut grid, room, min_distance) {
                proof {
                    lemma_place_keeps_layout(g0, grid@, n as int, rooms, room, min_distance as int);
                    rooms = rooms.push(room);
                }
                placed = true;
            }
        }
        room_id = room_id + 1;
    }
    Ok(grid)
}

/// With no room laid out, every cell is a wall: any room passes both checks.
proof fn lemma_no_room_cells(g: Seq<Vec<Grid>>, n: int, rooms: Seq<Room>, d: int, r: Room)
    requires
        laid_out(g, n, rooms, d),
        rooms.len() == 0,
        fits(r, n),
    ensures
        !overlaps_room(g, r),
        !near_room(g, n, r.start_x as int, r.start_y as int, d),
{
    assert forall|x: int, y: int| 0 <= x < n && 0 <= y < n implies #[trigger] at(g, x, y) == wall_cell() by {
        assert forall|k: int| 0 <= k < rooms.len() implies !in_room(#[trigger] rooms[k], x, y) by {}
    }
}

/// Stamping a room that passed both checks, with an id above those placed so
/// far, keeps the layout.
proof fn lemma_place_keeps_layout(g: Seq<Vec<Grid>>, h: Seq<Vec<Grid>>, n: int, rooms: Seq<Room>, r: Room, d: int)
    requires
        laid_out(g, n, rooms, d),
        fits(r, n),
        forall|k: int| 0 <= k < rooms.len() ==> (#[trigger] rooms[k]).id < r.id,
        !overlaps_room(g, r),
        !near_room(g, n, r.start_x as int, r.start_y as int, d),
        stamped(g, n, r, h),
    ensures
        laid_out(h, n, rooms.push(r), d),
{
    let rs = rooms.push(r);
    assert forall|k: int, x: int, y: int| 0 <= k < rs.len() && #[trigger] in_room(rs[k], x, y) implies at(h, x, y)
        == room_cell(rs[k].id as int, area(rs[k])) by {
        if k < rooms.len() {
            assert(rs[k] == rooms[k]);
            assert(at(g, x, y) == room_cell(rooms[k].id as int, area(rooms[k])));
            if in_room(r, x, y) {
                assert(overlaps_room(g, r));
            }
        }
    }
    assert forall|i: int, j: int, x: int, y: int|
        0 <= i < j < rs.len() && #[trigger] in_room(rs[i], x, y) implies dist2(
        x,
        y,
        (#[trigger] rs[j]).start_x as int,
        rs[j].start_y as int,
    ) >= d * d by {
        assert(rs[i] == rooms[i]);
        if j == rooms.len() {
            assert(at(g, x, y) == room_cell(rooms[i].id as int, area(rooms[i])));
            if dist2(x, y, r.start_x as int, r.start_y as int) < d * d {
                assert(near_room(g, n, r.start_x as int, r.start_y as int, d));
            }
        } else {
            assert(rs[j] == rooms[j]);
        }
    }
    assert forall|x: int, y: int|
        0 <= x < n && 0 <= y < n && (forall|k: int| 0 <= k < rs.len() ==> !in_room(#[trigger] rs[k], x, y))
        implies #[trigger] at(h, x, y) == wall_cell() by {
        assert(!in_room(rs[rooms.len() as int], x, y));
        assert forall|k: int| 0 <= k < rooms.len() implies !in_room(#[trigger] rooms[k], x, y) by {
            assert(rs[k] == rooms[k]);
            assert(!in_room(rs[k], x, y));
        }
    }
    assert forall|i: int, j: int| 0 <= i < j < rs.len() implies (#[trigger] rs[i]).id < (#[trigger] rs[j]).id by {
        assert(rs[i] == rooms[i]);
        if j < rooms.len() {
            assert(rs[j] == rooms[j]);
        }
    }
    assert forall|k: int| 0 <= k < rs.len() implies fits(#[trigger] rs[k], n) by {
        if k < rooms.len() {
            assert(rs[k] == rooms[k]);
        }
    }
}

/// In a layout no cell belongs to two rooms: the rectangles of distinct rooms
/// are disjoint, so no two room ids share a cell.
pub proof fn lemma_rooms_disjoint(g: Seq<Vec<Grid>>, n: int, rooms: Seq<Room>, d: int, i: int, j: int, x: int, y: int)
    requires
        laid_out(g, n, rooms, d),
        0 <= i < rooms.len(),
        0 <= j < rooms.len(),
        i != j,
    ensures
        !(in_room(rooms[i], x, y) && in_room(rooms[j], x, y)),
{
    if in_room(rooms[i], x, y) && in_room(rooms[j], x, y) {
        assert(at(g, x, y) == room_cell(rooms[i].id as int, area(rooms[i])));
        assert(at(g, x, y) == room_cell(rooms[j].id as int, area(rooms[j])));
        if i < j {
            assert(rooms[i].id < rooms[j].id);
        } else {
            assert(rooms[j].id < rooms[i].id);
        }
    }
}

/// The smallest room side never drops under 3, and it is exactly 3 whenever a
/// tenth of the side, scaled by the factor, is under 3.
pub proof fn lemma_min_room_size_clamped(n: int, f: int)
    requires
        0 <= n,
        0 <= f,
    ensures
        min_room_size_for(n, f) >= 3,
        n * f < 30000 ==> min_room_size_for(n, f) == 3,
        max_room_size_for(n, f) >= min_room_size_for(n, f),
{
}

/// Rooms that `generate_walls` tries to place.
pub const NUMBER_OF_ROOMS: usize = 10;

/// Draws of a size and a position that `generate_walls` makes for each room.
pub const MAX_ATTEMPTS: usize = 1000;

/// How far a new room's top-left corner stays from every room cell in
/// `generate_walls`.
pub const MIN_DISTANCE: usize = 5;

/// The smallest room side for a grid of side `n` and a size factor of
/// `f` thousandths: a tenth of the side scaled by the factor, and at least 3.
pub open spec fn min_room_size_for(n: int, f: int) -> int {
    let s = n * f / 10000;
    if s < 3 { 3 } else { s }
}

/// The bound (exclusive) on room sides for a grid of side `n` and a size factor
/// of `f` thousandths: half the side scaled by the factor, and at least the
/// smallest side.
pub open spec fn max_room_size_for(n: int, f: int) -> int {
    let s = n * f / 2000;
    let lo = min_room_size_for(n, f);
    if s < lo { lo } else { s }
}

/// The range of room sides for a grid of side `grid_size` and a size factor of
/// `room_size_factor` thousandths (1000 is a factor of one).
pub fn room_size_bounds(grid_size: usize, room_size_factor: u32) -> (r: (u128, u128))
    ensures
        r.0 == min_room_size_for(grid_size as int, room_size_factor as int),
        r.1 == max_room_size_for(grid_size as int, room_size_factor as int),
{
    proof {
        assert(grid_size * room_size_factor <= 0xFFFF_FFFF_FFFF_FFFF * 0xFFFF_FFFFint) by (nonlinear_arith)
            requires
                grid_size <= 0xFFFF_FFFF_FFFF_FFFF,
                room_size_factor <= 0xFFFF_FFFF,
        ;
    }
    let scaled: u128 = (grid_size as u128) * (room_size_factor as u128);
    let tenth = scaled / 10000;
    let min_size: u128 = if tenth < 3 { 3 } else { tenth };
    let half = scaled / 2000;
    let max_size: u128 = if half < min_size { min_size } else { half };
    (min_size, max_size)
}

/// Generates the rooms of a map: a grid of side `grid_size`, all walls but for
/// up to `NUMBER_OF_ROOMS` rooms with sides from `room_size_bounds`, each
/// placed with up to `MAX_ATTEMPTS` draws and kept `MIN_DISTANCE` from earlier
/// rooms. Fails when those sides leave nothing to draw.
pub fn generate_walls(grid_size: usize, room_size_factor: u32, rng: &mut StdRng) -> (r: Result<
    Vec<Vec<Grid>>,
    GenerateError,
>)
    ensures
        r is Err <==> !valid_sizes(
            grid_size as int,
            min_room_size_for(grid_size as int, room_size_factor as int),
            max_room_size_for(grid_size as int, room_size_factor as int),
        ),
        r is Err ==> r == Err::<Vec<Vec<Grid>>, GenerateError>(GenerateError::InvalidConfiguration),
        r is Ok ==> exists|rooms: Seq<Room>|
            laid_out(r->Ok_0@, grid_size as int, rooms, MIN_DISTANCE as int) && rooms_drawn(
                rooms,
                NUMBER_OF_ROOMS as int,
                min_room_size_for(grid_size as int, room_size_factor as int),
                max_room_size_for(grid_size as int, room_size_factor as int),
            ),
{
    let (min_size, max_size) = room_size_bounds(grid_size, room_size_factor);
    if max_size > grid_size as u128 {
        return Err(GenerateError::InvalidConfiguration);
    }
    place_rooms(grid_size, NUMBER_OF_ROOMS, min_size as usize, max_size as usize, MIN_DISTANCE, MAX_ATTEMPTS, rng)
}

} // verus!

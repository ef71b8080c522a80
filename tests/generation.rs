use dungeon_gen::cell::{new_grid, square_distance, CellKind, Grid, MAX_GRID_SIDE};
use dungeon_gen::corridor::{add_corridors, connect_rooms, generate_hallways, synthesize_corridors, HALLWAY_WIDTH};
use dungeon_gen::graph::{floor_sqrt, room_center, room_centers, sorted_edges, spanning_tree};
use dungeon_gen::placer::{
    generate_walls, overlaps, place_rooms, room_size_bounds, too_close, try_place_room, GenerateError, Room,
    MIN_DISTANCE, NUMBER_OF_ROOMS,
};
use rand::rngs::StdRng;
use rand::SeedableRng;
use std::collections::{BTreeMap, VecDeque};

fn room_at(id: usize, x: usize, y: usize, w: usize, h: usize) -> Room {
    Room { id, start_x: x, start_y: y, width: w, height: h }
}

/// A grid of side `n` with the given rooms stamped on it.
fn grid_with(n: usize, rooms: &[Room]) -> Vec<Vec<Grid>> {
    let mut g = new_grid(n);
    for r in rooms {
        assert!(try_place_room(&mut g, *r, 0));
    }
    g
}

/// For each room id present: its bounding box and cell count.
fn rooms_of(g: &[Vec<Grid>]) -> BTreeMap<usize, (usize, usize, usize, usize, usize)> {
    let mut m: BTreeMap<usize, (usize, usize, usize, usize, usize)> = BTreeMap::new();
    for (y, row) in g.iter().enumerate() {
        for (x, c) in row.iter().enumerate() {
            if c.cell_type == CellKind::Room {
                let e = m.entry(c.room_id).or_insert((x, y, x, y, 0));
                e.0 = e.0.min(x);
                e.1 = e.1.min(y);
                e.2 = e.2.max(x);
                e.3 = e.3.max(y);
                e.4 += 1;
            }
        }
    }
    m
}

fn count_kind(g: &[Vec<Grid>], k: CellKind) -> usize {
    g.iter().flatten().filter(|c| c.cell_type == k).count()
}

fn reachable(g: &[Vec<Grid>], from: (usize, usize)) -> Vec<Vec<bool>> {
    let n = g.len();
    let mut seen = vec![vec![false; n]; n];
    let mut queue = VecDeque::new();
    seen[from.1][from.0] = true;
    queue.push_back(from);
    while let Some((x, y)) = queue.pop_front() {
        let mut next = Vec::new();
        if x > 0 {
            next.push((x - 1, y));
        }
        if y > 0 {
            next.push((x, y - 1));
        }
        if x + 1 < n {
            next.push((x + 1, y));
        }
        if y + 1 < n {
            next.push((x, y + 1));
        }
        for (a, b) in next {
            if !seen[b][a] && g[b][a].cell_type != CellKind::Wall {
                seen[b][a] = true;
                queue.push_back((a, b));
            }
        }
    }
    seen
}

#[test]
fn room_size_bounds_follow_the_factor() {
    assert_eq!(room_size_bounds(50, 1000), (5, 25));
    assert_eq!(room_size_bounds(50, 500), (3, 12));
    assert_eq!(room_size_bounds(10, 1000), (3, 5));
    assert_eq!(room_size_bounds(100, 700), (7, 35));
}

#[test]
fn tiny_factor_clamps_to_three_and_is_refused() {
    assert_eq!(room_size_bounds(50, 1), (3, 3));
    let mut rng = StdRng::seed_from_u64(1);
    assert_eq!(generate_walls(50, 1, &mut rng), Err(GenerateError::InvalidConfiguration));
    // a grid of side 5 has sides 3..3 to draw from: nothing
    assert_eq!(room_size_bounds(5, 1000), (3, 3));
    assert_eq!(generate_walls(5, 1000, &mut rng), Err(GenerateError::InvalidConfiguration));
    // side 8 at factor one leaves sides 3..4
    assert!(generate_walls(8, 1000, &mut rng).is_ok());
}

#[test]
fn grid_too_small_for_rooms_is_refused() {
    let mut rng = StdRng::seed_from_u64(2);
    assert_eq!(place_rooms(4, 3, 3, 5, 0, 10, &mut rng), Err(GenerateError::InvalidConfiguration));
    assert_eq!(place_rooms(10, 3, 0, 5, 0, 10, &mut rng), Err(GenerateError::InvalidConfiguration));
    assert_eq!(place_rooms(10, 3, 4, 4, 0, 10, &mut rng), Err(GenerateError::InvalidConfiguration));
    assert_eq!(
        place_rooms(MAX_GRID_SIDE + 1, 3, 3, 5, 0, 10, &mut rng),
        Err(GenerateError::InvalidConfiguration)
    );
}

#[test]
fn new_grid_is_all_walls() {
    let g = new_grid(4);
    assert_eq!(g.len(), 4);
    for row in &g {
        assert_eq!(row.len(), 4);
        for c in row {
            assert_eq!(*c, Grid::wall());
            assert_eq!(c.cell_type(), CellKind::Wall);
            assert!(!c.is_room());
        }
    }
}

#[test]
fn square_distance_and_root() {
    assert_eq!(square_distance(1, 2, 4, 6), 25);
    assert_eq!(square_distance(4, 6, 1, 2), 25);
    assert_eq!(floor_sqrt(0), 0);
    assert_eq!(floor_sqrt(24), 4);
    assert_eq!(floor_sqrt(25), 5);
    assert_eq!(floor_sqrt(26), 5);
    assert_eq!(floor_sqrt(8_589_672_450), 92_680);
}

#[test]
fn overlap_and_separation_checks() {
    let g = grid_with(20, &[room_at(0, 2, 2, 3, 3)]);
    assert!(overlaps(&g, room_at(1, 4, 4, 3, 3)));
    assert!(!overlaps(&g, room_at(1, 5, 5, 3, 3)));
    // nearest room cell to (8, 4) is (4, 4), at distance 4
    assert!(too_close(&g, 8, 4, 5));
    assert!(!too_close(&g, 8, 4, 4));
    assert!(!too_close(&g, 9, 4, 5));
}

#[test]
fn placement_stamps_or_leaves_the_grid() {
    let mut g = grid_with(20, &[room_at(0, 2, 2, 3, 3)]);
    let before = g.clone();
    assert!(!try_place_room(&mut g, room_at(1, 7, 2, 3, 4), 5));
    assert_eq!(g, before);
    assert!(try_place_room(&mut g, room_at(1, 10, 2, 3, 4), 5));
    for y in 0..20 {
        for x in 0..20 {
            let c = g[y][x];
            if (10..13).contains(&x) && (2..6).contains(&y) {
                assert_eq!(c.cell_type, CellKind::Room);
                assert_eq!(c.room_id, 1);
                assert_eq!(c.room_size, 12);
                assert!(!c.is_merged);
            } else {
                assert_eq!(c, before[y][x]);
            }
        }
    }
}

#[test]
fn corridor_is_an_l_shape() {
    let mut g = new_grid(8);
    connect_rooms(&mut g, (1, 5, 0), (6, 1, 1), 2);
    for y in 0..8 {
        for x in 0..8 {
            let horizontal = (1..=6).contains(&x) && (y == 5 || y == 4);
            let vertical = (1..=5).contains(&y) && (x == 6 || x == 5);
            let expected = if horizontal || vertical { CellKind::Hallway } else { CellKind::Wall };
            assert_eq!(g[y][x].cell_type, expected, "cell ({}, {})", x, y);
        }
    }
}

#[test]
fn corridor_clamps_at_the_edge_and_keeps_room_data() {
    let mut g = grid_with(6, &[room_at(4, 0, 0, 2, 2)]);
    connect_rooms(&mut g, (0, 0, 4), (3, 0, 7), 3);
    assert_eq!(g[0][0].cell_type, CellKind::Hallway);
    assert_eq!(g[0][0].room_id, 4);
    assert_eq!(g[0][0].room_size, 4);
    assert_eq!(g[1][1].cell_type, CellKind::Room);
    for x in 0..=3 {
        assert_eq!(g[0][x].cell_type, CellKind::Hallway);
    }
    assert_eq!(g[0][4].cell_type, CellKind::Wall);
    assert_eq!(count_kind(&g, CellKind::Hallway), 4);
}

#[test]
fn painting_a_corridor_twice_changes_nothing() {
    let mut once = grid_with(12, &[room_at(0, 1, 1, 3, 3), room_at(1, 7, 6, 4, 4)]);
    connect_rooms(&mut once, (2, 2, 0), (8, 7, 1), 2);
    let mut twice = once.clone();
    connect_rooms(&mut twice, (2, 2, 0), (8, 7, 1), 2);
    assert_eq!(once, twice);
}

#[test]
fn centers_are_truncated_means() {
    let g = grid_with(20, &[room_at(0, 1, 1, 4, 3), room_at(2, 10, 12, 3, 3)]);
    assert_eq!(room_center(&g, 0), Some((2, 2, 0)));
    assert_eq!(room_center(&g, 1), None);
    assert_eq!(room_center(&g, 2), Some((11, 13, 2)));
    assert_eq!(room_centers(&g, 3), vec![(2, 2, 0), (11, 13, 2)]);
    assert_eq!(room_centers(&g, 2), vec![(2, 2, 0)]);
    assert_eq!(room_centers(&new_grid(5), 3), vec![]);
}

#[test]
fn edges_are_sorted_by_length_then_pair() {
    let centers = vec![(0, 0, 0), (3, 4, 1), (6, 8, 2), (0, 5, 3)];
    let edges = sorted_edges(&centers);
    assert_eq!(
        edges,
        vec![(1, 3, 3), (0, 1, 5), (0, 3, 5), (1, 2, 5), (2, 3, 6), (0, 2, 10)]
    );
    assert_eq!(spanning_tree(4, &edges), vec![true, true, false, true, false, false]);
}

#[test]
fn tree_has_one_edge_fewer_than_rooms() {
    let centers = vec![(1, 1, 0), (9, 2, 1), (4, 7, 2), (12, 12, 3), (2, 14, 4)];
    let edges = sorted_edges(&centers);
    assert_eq!(edges.len(), 10);
    let tree = spanning_tree(5, &edges);
    assert_eq!(tree.iter().filter(|t| **t).count(), 4);
}

#[test]
fn no_rooms_means_no_corridors() {
    let g = new_grid(10);
    let out = add_corridors(g.clone(), 10, 2, &vec![true; 50]);
    assert_eq!(out, g);
    let mut rng = StdRng::seed_from_u64(3);
    assert_eq!(generate_hallways(g.clone(), 1000, &mut rng), g);
}

#[test]
fn one_room_means_no_corridors() {
    let g = grid_with(10, &[room_at(3, 2, 2, 3, 3)]);
    let mut rng = StdRng::seed_from_u64(4);
    assert_eq!(generate_hallways(g.clone(), 1000, &mut rng), g);
}

#[test]
fn two_rooms_are_joined_by_one_corridor() {
    let g = grid_with(12, &[room_at(0, 1, 1, 3, 3), room_at(1, 7, 6, 4, 4)]);
    let out = add_corridors(g.clone(), 2, 2, &vec![]);
    let mut expected = g.clone();
    connect_rooms(&mut expected, (2, 2, 0), (8, 7, 1), 2);
    assert_eq!(out, expected);
    assert_eq!(add_corridors(g.clone(), 2, 2, &vec![true]), expected);
}

#[test]
fn extra_marks_add_loops() {
    // three rooms on a line: the tree skips the long edge between the ends
    let g = grid_with(
        30,
        &[room_at(0, 1, 10, 3, 3), room_at(1, 12, 10, 3, 3), room_at(2, 24, 20, 3, 3)],
    );
    let tree_only = add_corridors(g.clone(), 3, 1, &vec![false, false, false]);
    let edges = sorted_edges(&room_centers(&g, 3));
    assert_eq!(edges, vec![(0, 1, 11), (1, 2, 15), (0, 2, 25)]);
    let mut expected = g.clone();
    connect_rooms(&mut expected, (2, 11, 0), (13, 11, 1), 1);
    connect_rooms(&mut expected, (13, 11, 1), (25, 21, 2), 1);
    assert_eq!(tree_only, expected);
    let all = add_corridors(g.clone(), 3, 1, &vec![false, false, true]);
    connect_rooms(&mut expected, (2, 11, 0), (25, 21, 2), 1);
    assert_eq!(all, expected);
    let mut rng = StdRng::seed_from_u64(5);
    assert_eq!(synthesize_corridors(g.clone(), 3, 1000, 1, &mut rng), expected);
}

#[test]
fn concrete_scenario_places_and_connects_rooms() {
    let mut rng = StdRng::seed_from_u64(42);
    let g = generate_walls(50, 1000, &mut rng).unwrap();
    assert_eq!(g.len(), 50);
    assert!(g.iter().all(|row| row.len() == 50));
    let rooms = rooms_of(&g);
    assert!(!rooms.is_empty() && rooms.len() <= NUMBER_OF_ROOMS);
    // with an rng that handed back its lower bound every room would sit at the
    // corner and only one could be placed
    assert!(rooms.len() > 1);
    for (id, (x0, y0, x1, y1, count)) in &rooms {
        assert!(*id < NUMBER_OF_ROOMS);
        let (w, h) = (x1 - x0 + 1, y1 - y0 + 1);
        assert!((5..25).contains(&w) && (5..25).contains(&h));
        assert_eq!(*count, w * h);
        for y in *y0..=*y1 {
            for x in *x0..=*x1 {
                assert_eq!(g[y][x].room_id, *id);
                assert_eq!(g[y][x].room_size, w * h);
            }
        }
    }
    // every later room's corner keeps its distance from earlier rooms' cells
    for (later, (sx, sy, _, _, _)) in &rooms {
        for (earlier, (x0, y0, x1, y1, _)) in &rooms {
            if earlier < later {
                for y in *y0..=*y1 {
                    for x in *x0..=*x1 {
                        assert!(square_distance(x, y, *sx, *sy) >= (MIN_DISTANCE * MIN_DISTANCE) as u64);
                    }
                }
            }
        }
    }
    let centers = room_centers(&g, NUMBER_OF_ROOMS);
    let tree = spanning_tree(centers.len(), &sorted_edges(&centers));
    assert_eq!(tree.iter().filter(|t| **t).count(), centers.len() - 1);
    let out = generate_hallways(g.clone(), 0, &mut rng);
    let seen = reachable(&out, (centers[0].0, centers[0].1));
    for c in &centers {
        assert!(seen[c.1][c.0]);
        assert_eq!(out[c.1][c.0].cell_type, CellKind::Hallway);
    }
    for y in 0..50 {
        for x in 0..50 {
            if out[y][x].cell_type != CellKind::Hallway {
                assert_eq!(out[y][x], g[y][x]);
            }
        }
    }
}

#[test]
fn same_seed_gives_same_map() {
    let run = |seed: u64| {
        let mut rng = StdRng::seed_from_u64(seed);
        let g = generate_walls(60, 800, &mut rng).unwrap();
        generate_hallways(g, 300, &mut rng)
    };
    assert_eq!(run(9), run(9));
    assert_eq!(run(10), run(10));
}

#[test]
fn separation_holds_with_many_attempts() {
    let mut rng = StdRng::seed_from_u64(11);
    let g = place_rooms(40, 6, 3, 8, 3, 5000, &mut rng).unwrap();
    let rooms = rooms_of(&g);
    assert!(rooms.len() <= 6);
    for (later, (sx, sy, _, _, _)) in &rooms {
        for (earlier, (x0, y0, x1, y1, _)) in &rooms {
            if earlier < later {
                for y in *y0..=*y1 {
                    for x in *x0..=*x1 {
                        assert!(square_distance(x, y, *sx, *sy) >= 9);
                    }
                }
            }
        }
    }
}

#[test]
fn zero_attempts_still_tries_once() {
    let mut rng = StdRng::seed_from_u64(12);
    let g = place_rooms(30, 1, 3, 6, 0, 0, &mut rng).unwrap();
    assert_eq!(rooms_of(&g).len(), 1);
}

#[test]
fn hallway_width_constant() {
    assert_eq!(HALLWAY_WIDTH, 2);
}

#[test]
fn first_room_is_always_placed() {
    for seed in 0..20u64 {
        let mut rng = StdRng::seed_from_u64(seed);
        let g = place_rooms(12, 4, 3, 11, 40, 1, &mut rng).unwrap();
        let rooms = rooms_of(&g);
        assert!(rooms.contains_key(&0), "seed {}", seed);
        let mut rng = StdRng::seed_from_u64(seed);
        let g = generate_walls(50, 1000, &mut rng).unwrap();
        assert!(rooms_of(&g).contains_key(&0), "seed {}", seed);
    }
}

#[test]
fn full_factor_draws_every_edge() {
    let g = grid_with(
        30,
        &[room_at(0, 1, 10, 3, 3), room_at(1, 12, 10, 3, 3), room_at(2, 24, 20, 3, 3), room_at(3, 2, 24, 3, 3)],
    );
    let edges = sorted_edges(&room_centers(&g, 4));
    assert_eq!(edges.len(), 6);
    let mut rng = StdRng::seed_from_u64(6);
    let drawn = synthesize_corridors(g.clone(), 4, 1000, 2, &mut rng);
    assert_eq!(drawn, add_corridors(g.clone(), 4, 2, &vec![true; 6]));
    let tree_only = add_corridors(g.clone(), 4, 2, &vec![]);
    assert_eq!(synthesize_corridors(g.clone(), 4, 0, 2, &mut rng), tree_only);
    assert_ne!(drawn, tree_only);
}

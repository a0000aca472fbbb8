//! Construction and table properties of the routing graph.

use delaunator::{triangulate, Point};
use hive_nav::geometry::{lerp_point, Point2};
use hive_nav::hive_graph::{GraphState, HiveGraph};
use hive_nav::hive_map::HiveMap;

const WALKABLE: [u8; 4] = [246, 180, 0, 255];
const BLOCKED: [u8; 4] = [40, 40, 40, 255];
const IMAGE_BYTES: usize = 160 * 160 * 4;

fn uniform_map(rgba: [u8; 4]) -> HiveMap {
    let mut img = Vec::with_capacity(IMAGE_BYTES);
    for _ in 0..(160 * 160) {
        img.extend_from_slice(&rgba);
    }
    let mut m = HiveMap::new();
    m.build(&img);
    m
}

fn finish(map: &HiveMap, g: &mut HiveGraph) {
    let dpoints: Vec<Point> = g
        .points
        .iter()
        .map(|p| Point { x: p.x as f64, y: p.y as f64 })
        .collect();
    let tri = triangulate(&dpoints);
    g.finish_build(map, &tri.triangles, &tri.hull);
}

fn ready_graph(map: &HiveMap, n: usize) -> HiveGraph {
    let mut g = HiveGraph::new();
    g.begin_build(map, n);
    finish(map, &mut g);
    assert!(g.ready());
    g
}

#[test]
fn waypoints_unobstructed_and_inside_radius() {
    let map = uniform_map(WALKABLE);
    let g = ready_graph(&map, 24);
    assert!(g.points.len() >= 3);
    for p in g.points.iter() {
        let rr = (p.x as i128) * (p.x as i128) + (p.y as i128) * (p.y as i128);
        assert!(rr < 180_000i128 * 180_000i128);
        // Sampling never seeds a waypoint on obstructed ground.
        assert_eq!(map.get_obstruction(*p), 0);
    }
}

#[test]
fn edges_pass_the_prune_rule() {
    let map = uniform_map(WALKABLE);
    let g = ready_graph(&map, 24);
    let mut edges = 0usize;
    for i in 0..g.adjacent_points.len() {
        for &j in g.adjacent_points[i].iter() {
            edges += 1;
            for f in [10u64, 20, 50, 80, 90] {
                let s = lerp_point(g.points[i], g.points[j], f);
                assert!(map.get_obstruction(s) <= 100);
            }
        }
    }
    assert!(edges > 0);
}

#[test]
fn distances_are_a_symmetric_premetric() {
    let map = uniform_map(WALKABLE);
    let g = ready_graph(&map, 20);
    let n = g.points.len();
    let d = &g.distances;
    for i in 0..n {
        assert_eq!(d[i][i], 0);
        for j in 0..n {
            assert_eq!(d[i][j], d[j][i]);
            for k in 0..n {
                assert!(d[i][j] <= d[i][k] + d[k][j]);
            }
        }
    }
}

#[test]
fn build_is_idempotent() {
    let map = uniform_map(WALKABLE);
    let mut g = ready_graph(&map, 16);
    let points = g.points.clone();
    let adjacent = g.adjacent_points.clone();
    let next = g.next_points.clone();
    let distances = g.distances.clone();
    let hull = g.hull.clone();
    // Running both build steps again is a no-op once the graph is ready.
    g.begin_build(&map, 16);
    finish(&map, &mut g);
    assert_eq!(g.points, points);
    assert_eq!(g.adjacent_points, adjacent);
    assert_eq!(g.next_points, next);
    assert_eq!(g.distances, distances);
    assert_eq!(g.hull, hull);
    assert!(g.ready());
}

#[test]
fn too_few_waypoints_fail_construction() {
    // With fewer than three usable waypoints a triangulation is
    // meaningless: the graph fails permanently.
    let map = uniform_map(WALKABLE);
    let mut g = HiveGraph::new();
    g.begin_build(&map, 2);
    assert!(g.points.len() <= 2);
    finish(&map, &mut g);
    assert!(!g.ready());
    assert_eq!(g.state, GraphState::Failed);
    // And it stays failed.
    g.begin_build(&map, 24);
    finish(&map, &mut g);
    assert_eq!(g.state, GraphState::Failed);
}

#[test]
fn blocked_arena_seeds_only_outside_the_world() {
    // A fully blocked arena leaves no walkable ground inside the mapped
    // square, so every waypoint lands in the ring between the square's
    // edge and the circular working radius, where nothing is mapped.
    let map = uniform_map(BLOCKED);
    let mut g = HiveGraph::new();
    g.begin_build(&map, 24);
    for p in g.points.iter() {
        assert!(p.x.abs() >= 160_000 || p.y.abs() >= 160_000);
        assert_eq!(map.get_obstruction(*p), 0);
    }
}

#[test]
fn unready_field_defers_sampling() {
    let m = HiveMap::new();
    let mut g = HiveGraph::new();
    g.begin_build(&m, 24);
    assert_eq!(g.state, GraphState::Empty);
    assert!(g.points.is_empty());
}

#[test]
fn next_hop_is_deterministic_per_seed() {
    let map = uniform_map(WALKABLE);
    let g = ready_graph(&map, 24);
    let n = g.points.len();
    // The same (from, to, seed) always yields the same hop.
    for from in 0..n {
        for to in 0..n {
            let h1 = g.get_next(from, to, 7);
            let h2 = g.get_next(from, to, 7);
            assert_eq!(h1, h2);
        }
    }
    // Different seeds may legitimately yield different hops where two
    // choices exist; find such a pair to show the spread is real.
    let mut differed = false;
    'outer: for from in 0..n {
        for to in 0..n {
            if from == to || g.next_points[from][to].len() < 2 {
                continue;
            }
            if g.next_points[from][to][0].0 == g.next_points[from][to][1].0 {
                continue;
            }
            let base = g.get_next(from, to, 0);
            for seed in 1..200u64 {
                if g.get_next(from, to, seed) != base {
                    differed = true;
                    break 'outer;
                }
            }
        }
    }
    assert!(differed);
}

#[test]
fn next_hop_weights_and_neighbors() {
    let map = uniform_map(WALKABLE);
    let g = ready_graph(&map, 24);
    let n = g.points.len();
    for from in 0..n {
        for to in 0..n {
            let e = &g.next_points[from][to];
            if from == to {
                assert!(e.is_empty());
                continue;
            }
            let deg = g.adjacent_points[from].len();
            if deg == 0 {
                assert!(e.is_empty());
            } else if deg == 1 {
                assert_eq!(e.len(), 1);
                assert_eq!(e[0].1, 100);
            } else {
                assert_eq!(e.len(), 2);
                assert_eq!(e[0].1, 60);
                assert_eq!(e[1].1, 40);
                // The two weighted choices are two different waypoints.
                assert_ne!(e[0].0, e[1].0);
            }
            for &(hop, _) in e.iter() {
                assert!(g.adjacent_points[from].contains(&hop));
            }
        }
    }
}

#[test]
fn sampled_layout_is_reproducible() {
    // The sampler is seeded with a constant, so two builds over equal
    // field data lay out identical waypoints, and identical tables
    // follow.
    let map_a = uniform_map(WALKABLE);
    let map_b = uniform_map(WALKABLE);
    let ga = ready_graph(&map_a, 24);
    let gb = ready_graph(&map_b, 24);
    assert_eq!(ga.points, gb.points);
    assert_eq!(ga.adjacent_points, gb.adjacent_points);
    assert_eq!(ga.distances, gb.distances);
    assert_eq!(ga.next_points, gb.next_points);
    assert_eq!(ga.hull, gb.hull);
}

#[test]
fn finish_keeps_the_supplied_hull() {
    let map = uniform_map(WALKABLE);
    let mut g = HiveGraph::new();
    g.begin_build(&map, 24);
    let dpoints: Vec<Point> = g
        .points
        .iter()
        .map(|p| Point { x: p.x as f64, y: p.y as f64 })
        .collect();
    let tri = triangulate(&dpoints);
    g.finish_build(&map, &tri.triangles, &tri.hull);
    assert!(g.ready());
    assert_eq!(g.hull, tri.hull);
}

#[test]
fn distances_never_exceed_a_walkable_route() {
    // Each stored distance is realized by a chain of pruned edges, so in
    // particular a direct edge bounds it from above.
    let map = uniform_map(WALKABLE);
    let g = ready_graph(&map, 20);
    for i in 0..g.points.len() {
        for &j in g.adjacent_points[i].iter() {
            let dx = (g.points[i].x - g.points[j].x) as i128;
            let dy = (g.points[i].y - g.points[j].y) as i128;
            let edge = ((dx * dx + dy * dy) as f64).sqrt() as u64;
            assert!(g.distances[i][j] <= edge + 1);
        }
    }
}

#[test]
fn nearest_returns_a_closest_waypoint() {
    let map = uniform_map(WALKABLE);
    let g = ready_graph(&map, 24);
    for (idx, p) in g.points.iter().enumerate() {
        let r = g.get_nearest(*p);
        assert_eq!(g.points[r], g.points[idx]);
    }
    let q = Point2::new(1_234, -5_678);
    let r = g.get_nearest(q);
    let dr = (g.points[r].x - q.x) as i128 * (g.points[r].x - q.x) as i128
        + (g.points[r].y - q.y) as i128 * (g.points[r].y - q.y) as i128;
    for p in g.points.iter() {
        let dp = (p.x - q.x) as i128 * (p.x - q.x) as i128
            + (p.y - q.y) as i128 * (p.y - q.y) as i128;
        assert!(dr <= dp);
    }
}

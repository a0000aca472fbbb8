//! The per-agent path-following state machine, tick by tick.

use delaunator::{triangulate, Point};
use hive_nav::geometry::Point2;
use hive_nav::hive_graph::{GraphState, HiveGraph};
use hive_nav::hive_map::HiveMap;
use hive_nav::navigation::{navigation_tick, NavigationResult, NavigationTarget};

const WALKABLE: [u8; 4] = [246, 180, 0, 255];
const IMAGE_BYTES: usize = 160 * 160 * 4;

fn uniform_map(rgba: [u8; 4]) -> HiveMap {
    let mut img = Vec::with_capacity(IMAGE_BYTES);
    for _ in 0..(160 * 160) {
        img.extend_from_slice(&rgba);
    }
    let mut m = HiveMap::new();
    m.build(&img);
    m
}

fn finish(map: &HiveMap, g: &mut HiveGraph) {
    let dpoints: Vec<Point> = g
        .points
        .iter()
        .map(|p| Point { x: p.x as f64, y: p.y as f64 })
        .collect();
    let tri = triangulate(&dpoints);
    g.finish_build(map, &tri.triangles, &tri.hull);
}

fn ready_graph(map: &HiveMap) -> HiveGraph {
    let mut g = HiveGraph::new();
    g.begin_build(map, 24);
    finish(map, &mut g);
    assert!(g.ready());
    g
}

fn failed_graph() -> HiveGraph {
    // Two waypoints are too few to triangulate: construction fails for
    // good and agents fall back to straight-line travel.
    let map = uniform_map(WALKABLE);
    let mut g = HiveGraph::new();
    g.begin_build(&map, 2);
    finish(&map, &mut g);
    assert_eq!(g.state, GraphState::Failed);
    g
}

#[test]
fn no_target_is_reached_and_reset() {
    let map = uniform_map(WALKABLE);
    let g = ready_graph(&map);
    let mut res = NavigationResult::default();
    res.last_reached = true;
    res.time_since_refresh = 55;
    navigation_tick(
        &g,
        &mut res,
        &NavigationTarget::NoTarget,
        false,
        Point2::new(0, 0),
        None,
        16,
        1,
    );
    assert!(res.target_reached);
    assert!(!res.last_reached);
    assert_eq!(res.next_path_point, None);
    assert_eq!(res.next_and_last, None);
    assert_eq!(res.time_since_refresh, 0);
}

#[test]
fn unsettled_graph_means_no_update() {
    let g = HiveGraph::new();
    let mut res = NavigationResult::default();
    res.time_since_refresh = 42;
    let before = res.clone();
    navigation_tick(
        &g,
        &mut res,
        &NavigationTarget::Position(Point2::new(10_000, 0)),
        true,
        Point2::new(0, 0),
        None,
        16,
        1,
    );
    assert_eq!(res, before);
}

#[test]
fn far_target_over_failed_graph_walks_direct() {
    // An arena whose graph could not be built degrades to straight-line
    // travel: the target far outside the working radius is steered to
    // directly, and reached only within reach distance.
    let g = failed_graph();
    let target = NavigationTarget::Position(Point2::new(500_000, 0));
    let mut res = NavigationResult::default();
    navigation_tick(&g, &mut res, &target, true, Point2::new(0, 0), None, 16, 1);
    assert!(!res.target_reached);
    assert_eq!(res.next_path_point, Some(Point2::new(500_000, 0)));
    assert_eq!(res.next_and_last, None);
    let dir = res.get_direction(Point2::new(0, 0));
    assert_eq!(dir, Point2::new(1000, 0));
    // Still short of the goal at 10 units away...
    navigation_tick(&g, &mut res, &target, false, Point2::new(490_000, 0), None, 16, 2);
    assert!(!res.target_reached);
    // ... reached within the reach distance.
    navigation_tick(&g, &mut res, &target, false, Point2::new(498_000, 0), None, 16, 3);
    assert!(res.target_reached);
}

#[test]
fn far_target_from_origin_walks_direct() {
    // Agent at the center, target 500 units out: the target lies far
    // outside the working radius, so the route is direct from the start,
    // heading straight along the positive x axis.
    let map = uniform_map(WALKABLE);
    let g = ready_graph(&map);
    let target = NavigationTarget::Position(Point2::new(500_000, 0));
    let mut res = NavigationResult::default();
    navigation_tick(&g, &mut res, &target, true, Point2::new(0, 0), None, 16, 1);
    assert!(!res.target_reached);
    assert_eq!(res.next_path_point, Some(Point2::new(500_000, 0)));
    assert_eq!(res.next_and_last, None);
    assert_eq!(res.get_direction(Point2::new(0, 0)), Point2::new(1000, 0));
    // Not yet arrived 10 units short of the goal...
    navigation_tick(&g, &mut res, &target, false, Point2::new(490_000, 0), None, 16, 2);
    assert!(!res.target_reached);
    // ... arrived within the reach distance.
    navigation_tick(&g, &mut res, &target, false, Point2::new(498_000, 0), None, 16, 3);
    assert!(res.target_reached);
}

#[test]
fn agent_far_outside_radius_walks_direct() {
    let map = uniform_map(WALKABLE);
    let g = ready_graph(&map);
    let target = NavigationTarget::Position(Point2::new(900_000, 0));
    let mut res = NavigationResult::default();
    navigation_tick(&g, &mut res, &target, true, Point2::new(400_000, 0), None, 16, 1);
    assert_eq!(res.next_path_point, Some(Point2::new(900_000, 0)));
    assert_eq!(res.next_and_last, None);
    assert!(!res.target_reached);
}

#[test]
fn same_nearest_waypoint_goes_straight_to_last_leg() {
    let map = uniform_map(WALKABLE);
    let g = ready_graph(&map);
    // Stand a little off the waypoint nearest the center and aim a
    // little off it the other way: both resolve to the same waypoint.
    let w = g.points[g.get_nearest(Point2::new(0, 0))];
    let from = Point2::new(w.x + 6_000, w.y);
    let to = Point2::new(w.x, w.y + 6_000);
    assert_eq!(g.get_nearest(from), g.get_nearest(to));
    let target = NavigationTarget::Position(to);
    let mut res = NavigationResult::default();
    navigation_tick(&g, &mut res, &target, true, from, None, 16, 1);
    assert!(res.last_reached);
    assert_eq!(res.next_path_point, Some(to));
    assert_eq!(res.next_and_last, None);
    assert!(!res.target_reached);
}

#[test]
fn position_reach_latches() {
    let map = uniform_map(WALKABLE);
    let g = ready_graph(&map);
    let target = NavigationTarget::Position(Point2::new(11_000, 10_000));
    let mut res = NavigationResult::default();
    navigation_tick(&g, &mut res, &target, true, Point2::new(10_000, 10_000), None, 16, 1);
    assert!(res.target_reached);
    // Repeated ticks without a target change keep it reached, even from
    // far away again.
    for seed in 0..10u64 {
        navigation_tick(&g, &mut res, &target, false, Point2::new(90_000, -40_000), None, 16, seed);
        assert!(res.target_reached);
    }
}

#[test]
fn entity_arrival_uses_hysteresis() {
    let map = uniform_map(WALKABLE);
    let g = ready_graph(&map);
    let target = NavigationTarget::Entity(7, 10_000);
    let from = Point2::new(0, 0);
    let mut res = NavigationResult::default();
    // Inside 0.8 x radius: arrived.
    navigation_tick(&g, &mut res, &target, true, from, Some(Point2::new(7_000, 0)), 16, 1);
    assert!(res.target_reached);
    // Drifting out to just inside the full radius keeps it arrived.
    navigation_tick(&g, &mut res, &target, false, from, Some(Point2::new(9_999, 0)), 16, 2);
    assert!(res.target_reached);
    // Past the full radius the flag clears and the route resets.
    navigation_tick(&g, &mut res, &target, false, from, Some(Point2::new(10_001, 0)), 16, 3);
    assert!(!res.target_reached);
    assert_eq!(res.next_path_point, None);
    assert_eq!(res.next_and_last, None);
}

#[test]
fn entity_replan_waits_for_the_cadence() {
    let map = uniform_map(WALKABLE);
    let g = ready_graph(&map);
    let target = NavigationTarget::Entity(3, 1_000);
    let from = Point2::new(0, 0);
    let to = Point2::new(5_000, 0);
    let mut res = NavigationResult::default();
    // First tick: no destination yet, so a plan is made at once.
    navigation_tick(&g, &mut res, &target, true, from, Some(to), 60, 1);
    assert!(res.next_path_point.is_some());
    assert_eq!(res.time_since_refresh, 0);
    // Close range re-plans only after 100 ms: the next two ticks just
    // accumulate time.
    navigation_tick(&g, &mut res, &target, false, from, Some(to), 60, 2);
    assert_eq!(res.time_since_refresh, 60);
    navigation_tick(&g, &mut res, &target, false, from, Some(to), 60, 3);
    assert_eq!(res.time_since_refresh, 120);
    // Now the timer has run out and the route is refreshed.
    navigation_tick(&g, &mut res, &target, false, from, Some(to), 60, 4);
    assert_eq!(res.time_since_refresh, 0);
}

#[test]
fn dangling_entity_leaves_state_unchanged() {
    let map = uniform_map(WALKABLE);
    let g = ready_graph(&map);
    let target = NavigationTarget::Entity(9, 5_000);
    let mut res = NavigationResult::default();
    navigation_tick(&g, &mut res, &target, true, Point2::new(0, 0), Some(Point2::new(20_000, 0)), 16, 1);
    let planned = res.clone();
    // The entity can no longer be resolved: nothing moves.
    navigation_tick(&g, &mut res, &target, false, Point2::new(1_000, 0), None, 16, 2);
    assert_eq!(res, planned);
}

#[test]
fn changed_target_resets_the_result() {
    let map = uniform_map(WALKABLE);
    let g = ready_graph(&map);
    let first = NavigationTarget::Position(Point2::new(1_000, 0));
    let mut res = NavigationResult::default();
    navigation_tick(&g, &mut res, &first, true, Point2::new(0, 0), None, 16, 1);
    assert!(res.target_reached);
    // A new, distant target with the change flag set starts from a
    // clean slate: the stale reached flag does not survive.
    let second = NavigationTarget::Position(Point2::new(400_000, 0));
    navigation_tick(&g, &mut res, &second, true, Point2::new(0, 0), None, 16, 2);
    assert!(!res.target_reached);
}

#[test]
fn graph_route_advances_hop_by_hop() {
    let map = uniform_map(WALKABLE);
    let g = ready_graph(&map);
    // Choose a start and goal on opposite sides of the covered area,
    // near enough the center line that the graph mediates the route.
    let from = Point2::new(-120_000, 2_000);
    let to = Point2::new(120_000, -2_000);
    assert_ne!(g.get_nearest(from), g.get_nearest(to));
    let target = NavigationTarget::Position(to);
    let mut res = NavigationResult::default();
    navigation_tick(&g, &mut res, &target, true, from, None, 16, 5);
    let (next, last) = res.next_and_last.expect("a graph cursor");
    assert_eq!(res.next_path_point, Some(g.points[next]));
    assert_eq!(last, g.get_nearest(to));
    // Standing on the current hop advances the cursor.
    let here = g.points[next];
    navigation_tick(&g, &mut res, &target, false, here, None, 16, 6);
    match res.next_and_last {
        Some((n2, l2)) => {
            assert_eq!(l2, last);
            assert_eq!(res.next_path_point, Some(g.points[n2]));
        }
        None => {
            // The hop was the goal hop: the last leg goes direct.
            assert!(res.last_reached);
            assert_eq!(res.next_path_point, Some(to));
        }
    }
}

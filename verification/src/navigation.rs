//! The per-agent path-following state machine.
//!
//! Every tick, an agent's navigation target (none, a fixed point, or
//! another entity with an arrival radius) and its position are turned
//! into a navigation result: a reached flag and the next point to steer
//! toward.  Travel far from the routing graph is a straight line; travel
//! through its working area follows precomputed next hops.  Entity
//! targets re-plan on a cadence that tightens as the target nears, and
//! arrival uses a dual threshold so the reached flag cannot flicker at
//! the boundary.
//!
//! The whole transition is specified by [`tick_spec`] and its two
//! per-target-kind cases; the runtime entry point [`navigation_tick`]
//! computes exactly that function.

use vstd::prelude::*;

use crate::geometry::{dist_sq, dist_sq_exec, dist_to_segment_exceeds, norm_scaled, seg_dist_gt,
    unit_toward, valid_pos, Point2, COORD_LIMIT};
use crate::hive_graph::{nearest_in, pick_weighted, GraphState, HiveGraph};
use crate::rng::seeded_roll;

verus! {

/// Distance (milli-units) at which a point or hop counts as arrived.
pub const REACH_DISTANCE_MILLI: i64 = 4_000;

/// A position target whose connecting segment strays farther than this
/// from the arena center is walked directly (9/10 of the graph radius).
pub const DIRECT_SEGMENT_MILLI: i64 = 162_000;

/// A position-seeking agent farther than this from the center is walked
/// directly (twice the graph radius).
pub const DIRECT_AGENT_MILLI: i64 = 360_000;

/// Segment threshold for entity targets (17/20 of the graph radius).
pub const DIRECT_SEGMENT_ENTITY_MILLI: i64 = 153_000;

/// Agent-distance threshold for entity targets (3/2 of the graph radius).
pub const DIRECT_AGENT_ENTITY_MILLI: i64 = 270_000;

/// What an agent is steering toward.
#[derive(Clone, Copy, PartialEq, Eq, Structural, Debug)]
pub enum NavigationTarget {
    /// Nowhere: the agent counts as arrived.
    NoTarget,
    /// A fixed world position.
    Position(Point2),
    /// Another entity, by identifier, with an arrival radius in
    /// milli-units.
    Entity(u64, i64),
}

/// Which side an agent fights on; carried next to its target by the
/// behavior logic.
#[derive(Clone, Copy, PartialEq, Eq, Structural, Debug)]
pub enum Faction {
    Bees,
    Enemies,
}

/// Per-agent navigation output and path-follow cursor.
#[derive(Clone, Copy, PartialEq, Eq, Debug)]
pub struct NavigationResult {
    /// The agent is at its target (with hysteresis for entity targets).
    pub target_reached: bool,
    /// The graph part of the route is done; only the last straight leg
    /// remains.
    pub last_reached: bool,
    /// The point to steer toward this tick, if any.
    pub next_path_point: Option<Point2>,
    /// Current hop and goal hop in the routing graph, if following it.
    pub next_and_last: Option<(usize, usize)>,
    /// Milliseconds since the entity-target route was last re-planned.
    pub time_since_refresh: u64,
}

impl NavigationResult {
    /// The freshly reset result: nothing reached, no route.
    pub open spec fn spec_default() -> NavigationResult {
        NavigationResult {
            target_reached: false,
            last_reached: false,
            next_path_point: None,
            next_and_last: None,
            time_since_refresh: 0,
        }
    }

    pub fn is_reached(&self) -> (r: bool)
        ensures
            r == self.target_reached,
    {
        self.target_reached
    }

    /// Direction of travel: a fixed-point vector of length about 1000
    /// toward the next path point, or zero with no destination.
    pub fn get_direction(&self, my_position: Point2) -> (d: Point2)
        requires
            valid_pos(my_position),
            self.next_path_point matches Some(p) ==> valid_pos(p),
        ensures
            self.next_path_point is None ==> d == Point2::spec_origin(),
            self.next_path_point matches Some(to) ==> d.x == norm_scaled(
                to.x - my_position.x,
                crate::geometry::sqrt_floor(dist_sq(my_position, to)),
            ) && d.y == norm_scaled(
                to.y - my_position.y,
                crate::geometry::sqrt_floor(dist_sq(my_position, to)),
            ),
    {
        match self.next_path_point {
            Some(to) => unit_toward(my_position, to),
            None => Point2::origin(),
        }
    }
}

impl Default for NavigationResult {
    fn default() -> (r: NavigationResult)
        ensures
            r == NavigationResult::spec_default(),
    {
        NavigationResult {
            target_reached: false,
            last_reached: false,
            next_path_point: None,
            next_and_last: None,
            time_since_refresh: 0,
        }
    }
}

/// Seed for one agent's hop choice this tick: a coarse time bucket plus
/// the agent's stable index, so choices differ across agents and ticks
/// but are fixed for one agent at one tick.
pub fn derive_seed(time_centis: u64, agent_index: u64) -> (seed: u64)
    requires
        time_centis < 0x1_0000_0000,
        agent_index < 0x1_0000_0000,
    ensures
        seed == time_centis + agent_index,
{
    time_centis + agent_index
}

/// A navigation result an agent may hand back to the library: while the
/// graph is ready, any stored hop indices are real waypoints, and any
/// stored path point is a valid position.
pub open spec fn res_wf(g: &HiveGraph, res: NavigationResult) -> bool {
    &&& (res.next_and_last matches Some((a, b)) ==> g.spec_ready() && a < g.n() && b < g.n())
    &&& (res.next_path_point matches Some(p) ==> valid_pos(p))
}

/// The graph answers routing queries only when fully built.
pub open spec fn graph_usable(g: &HiveGraph) -> bool {
    g.state is Ready
}

/// The hop index [`HiveGraph::get_next`] returns for this pair and seed.
pub open spec fn hop_of(g: &HiveGraph, a: int, b: int, seed: u64) -> int {
    pick_weighted(g.next_points@[a]@[b]@, seeded_roll(seed) as int)
}

/// Re-plan cadence for entity targets: one second when far, half when
/// midway, a tenth when close.
pub open spec fn entity_refresh_ms(dsq: int) -> int {
    if dsq > 16_384_000_000 {
        1000
    } else if dsq > 4_096_000_000 {
        500
    } else {
        100
    }
}

/// An entity route is re-planned when its timer ran out or it has no
/// destination yet.
pub open spec fn refresh_due(res: NavigationResult, dsq: int) -> bool {
    res.time_since_refresh > entity_refresh_ms(dsq) || res.next_path_point is None
}

/// The timer advanced by `dt`, saturating instead of wrapping.
pub open spec fn advance_timer(tsr: u64, dt: u64) -> u64 {
    if tsr + dt <= u64::MAX {
        (tsr + dt) as u64
    } else {
        u64::MAX
    }
}

/// One tick of an agent chasing a fixed position `to` from `from`.
/// Travel is direct (no graph) when the graph is unusable, when the
/// connecting segment never approaches the covered core, or when either
/// endpoint lies far outside the working radius.
pub open spec fn tick_position(
    g: &HiveGraph,
    res: NavigationResult,
    from: Point2,
    to: Point2,
    seed: u64,
) -> NavigationResult {
    if dist_sq(from, to) < (REACH_DISTANCE_MILLI as int) * (REACH_DISTANCE_MILLI as int)
        || res.target_reached {
        NavigationResult { target_reached: true, ..res }
    } else if !graph_usable(g) || seg_dist_gt(
        from,
        to,
        Point2::spec_origin(),
        DIRECT_SEGMENT_MILLI as int,
    ) || dist_sq(from, Point2::spec_origin()) > (DIRECT_AGENT_MILLI as int) * (
    DIRECT_AGENT_MILLI as int) || dist_sq(to, Point2::spec_origin()) > (DIRECT_AGENT_MILLI as int)
        * (DIRECT_AGENT_MILLI as int) {
        NavigationResult { next_path_point: Some(to), next_and_last: None, ..res }
    } else {
        match res.next_and_last {
            Some((next, last)) => {
                if dist_sq(g.points@[next as int], from) < (REACH_DISTANCE_MILLI as int) * (
                REACH_DISTANCE_MILLI as int) {
                    if next == last {
                        NavigationResult {
                            next_and_last: None,
                            next_path_point: Some(to),
                            last_reached: true,
                            ..res
                        }
                    } else {
                        let nn = hop_of(g, next as int, last as int, seed) as usize;
                        NavigationResult {
                            next_and_last: Some((nn, last)),
                            next_path_point: Some(g.points@[nn as int]),
                            ..res
                        }
                    }
                } else {
                    res
                }
            },
            None => {
                if !res.last_reached {
                    let nf = nearest_in(g.points@, from, g.n()) as usize;
                    let nt = nearest_in(g.points@, to, g.n()) as usize;
                    if nf == nt {
                        NavigationResult {
                            next_and_last: None,
                            next_path_point: Some(to),
                            last_reached: true,
                            ..res
                        }
                    } else {
                        let h = hop_of(g, nf as int, nt as int, seed) as usize;
                        NavigationResult {
                            next_and_last: Some((h, nt)),
                            next_path_point: Some(g.points@[h as int]),
                            ..res
                        }
                    }
                } else {
                    res
                }
            },
        }
    }
}

/// One tick of an agent chasing entity position `to` with arrival radius
/// `radius`.  Without a due refresh only the timer moves; a refresh
/// first applies the arrival hysteresis, then routes like a position
/// target, re-resolving the goal waypoint since the entity moves.
pub open spec fn tick_entity(
    g: &HiveGraph,
    res: NavigationResult,
    from: Point2,
    to: Point2,
    radius: int,
    dt_ms: u64,
    seed: u64,
) -> NavigationResult {
    let dsq = dist_sq(from, to);
    if !refresh_due(res, dsq) {
        NavigationResult {
            time_since_refresh: advance_timer(res.time_since_refresh, dt_ms),
            ..res
        }
    } else {
        let r0 = NavigationResult { time_since_refresh: 0, ..res };
        if 25 * dsq < 16 * (radius * radius) {
            NavigationResult { target_reached: true, ..r0 }
        } else if r0.target_reached {
            if dsq > radius * radius {
                NavigationResult {
                    target_reached: false,
                    next_and_last: None,
                    next_path_point: None,
                    ..r0
                }
            } else {
                r0
            }
        } else if !graph_usable(g) || seg_dist_gt(
            from,
            to,
            Point2::spec_origin(),
            DIRECT_SEGMENT_ENTITY_MILLI as int,
        ) || dist_sq(from, Point2::spec_origin()) > (DIRECT_AGENT_ENTITY_MILLI as int) * (
        DIRECT_AGENT_ENTITY_MILLI as int) || dist_sq(to, Point2::spec_origin()) > (
        DIRECT_AGENT_ENTITY_MILLI as int) * (DIRECT_AGENT_ENTITY_MILLI as int) {
            NavigationResult { next_path_point: Some(to), next_and_last: None, ..r0 }
        } else {
            match r0.next_and_last {
                Some((next, last)) => {
                    if dist_sq(g.points@[next as int], from) < (REACH_DISTANCE_MILLI as int) * (
                    REACH_DISTANCE_MILLI as int) {
                        if next == last {
                            NavigationResult {
                                next_and_last: None,
                                next_path_point: Some(to),
                                last_reached: true,
                                ..r0
                            }
                        } else {
                            let nl = nearest_in(g.points@, to, g.n()) as usize;
                            let nn = hop_of(g, next as int, nl as int, seed) as usize;
                            NavigationResult {
                                next_and_last: Some((nn, nl)),
                                next_path_point: Some(g.points@[nn as int]),
                                ..r0
                            }
                        }
                    } else {
                        r0
                    }
                },
                None => {
                    if !r0.last_reached {
                        let nf = nearest_in(g.points@, from, g.n()) as usize;
                        let nt = nearest_in(g.points@, to, g.n()) as usize;
                        if nf == nt {
                            NavigationResult {
                                next_and_last: None,
                                next_path_point: Some(to),
                                last_reached: true,
                                ..r0
                            }
                        } else {
                            let h = hop_of(g, nf as int, nt as int, seed) as usize;
                            NavigationResult {
                                next_and_last: Some((h, nt)),
                                next_path_point: Some(g.points@[h as int]),
                                ..r0
                            }
                        }
                    } else {
                        r0
                    }
                },
            }
        }
    }
}

/// The full per-agent transition for one tick.  Before the graph's
/// build has settled (neither ready nor failed) nothing happens.  A
/// changed target resets the result first; a cleared target leaves a
/// reset, reached result; a dangling entity target (no position) leaves
/// the state as it stands.
pub open spec fn tick_spec(
    g: &HiveGraph,
    res: NavigationResult,
    target: NavigationTarget,
    target_changed: bool,
    from: Point2,
    entity_pos: Option<Point2>,
    dt_ms: u64,
    seed: u64,
) -> NavigationResult {
    if !(g.state is Ready || g.state is Failed) {
        res
    } else {
        let res0 = if target_changed {
            NavigationResult::spec_default()
        } else {
            res
        };
        match target {
            NavigationTarget::NoTarget => NavigationResult {
                target_reached: true,
                ..NavigationResult::spec_default()
            },
            NavigationTarget::Position(to) => tick_position(g, res0, from, to, seed),
            NavigationTarget::Entity(_, radius) => match entity_pos {
                Some(to) => tick_entity(g, res0, from, to, radius as int, dt_ms, seed),
                None => res0,
            },
        }
    }
}

/// Once an agent with a fixed position target is reached, every further
/// tick without a target change leaves it reached.
pub proof fn lemma_position_reach_latches(
    g: &HiveGraph,
    res: NavigationResult,
    to: Point2,
    from: Point2,
    entity_pos: Option<Point2>,
    dt_ms: u64,
    seed: u64,
)
    requires
        res.target_reached,
    ensures
        tick_spec(
            g,
            res,
            NavigationTarget::Position(to),
            false,
            from,
            entity_pos,
            dt_ms,
            seed,
        ).target_reached,
{
}

/// Arrival hysteresis: an agent chasing an entity that has arrived stays
/// arrived for as long as its distance does not exceed the full arrival
/// radius; only drifting beyond the radius can clear the flag.
pub proof fn lemma_entity_hysteresis(
    g: &HiveGraph,
    res: NavigationResult,
    entity: u64,
    radius: i64,
    from: Point2,
    to: Point2,
    dt_ms: u64,
    seed: u64,
)
    requires
        res.target_reached,
        dist_sq(from, to) <= (radius as int) * (radius as int),
    ensures
        tick_spec(
            g,
            res,
            NavigationTarget::Entity(entity, radius),
            false,
            from,
            Some(to),
            dt_ms,
            seed,
        ).target_reached,
{
}

/// The squares of the distance thresholds, precomputed once for the
/// runtime comparisons.
proof fn lemma_square_consts()
    ensures
        (REACH_DISTANCE_MILLI as int) * (REACH_DISTANCE_MILLI as int) == 16_000_000,
        (DIRECT_AGENT_MILLI as int) * (DIRECT_AGENT_MILLI as int) == 129_600_000_000,
        (DIRECT_AGENT_ENTITY_MILLI as int) * (DIRECT_AGENT_ENTITY_MILLI as int)
            == 72_900_000_000,
{
    assert((REACH_DISTANCE_MILLI as int) * (REACH_DISTANCE_MILLI as int) == 16_000_000
        && (DIRECT_AGENT_MILLI as int) * (DIRECT_AGENT_MILLI as int) == 129_600_000_000 && (
    DIRECT_AGENT_ENTITY_MILLI as int) * (DIRECT_AGENT_ENTITY_MILLI as int) == 72_900_000_000)
        by (nonlinear_arith)
        requires
            REACH_DISTANCE_MILLI == 4_000i64,
            DIRECT_AGENT_MILLI == 360_000i64,
            DIRECT_AGENT_ENTITY_MILLI == 270_000i64,
    ;
}

/// Runtime step for a fixed-position target; computes [`tick_position`].
fn position_step(g: &HiveGraph, res: NavigationResult, from: Point2, to: Point2, seed: u64) -> (r:
    NavigationResult)
    requires
        g.wf(),
        res_wf(g, res),
        valid_pos(from),
        valid_pos(to),
    ensures
        r == tick_position(g, res, from, to, seed),
        res_wf(g, r),
{
    proof {
        lemma_square_consts();
        crate::geometry::lemma_dist_sq_bound(from, to);
    }
    let dsq = dist_sq_exec(from, to);
    if dsq < (REACH_DISTANCE_MILLI as i128) * (REACH_DISTANCE_MILLI as i128)
        || res.target_reached {
        return NavigationResult { target_reached: true, ..res };
    }
    let origin = Point2::origin();
    proof {
        crate::geometry::lemma_dist_sq_bound(from, origin);
        crate::geometry::lemma_dist_sq_bound(to, origin);
    }
    if !g.ready() || dist_to_segment_exceeds(from, to, origin, DIRECT_SEGMENT_MILLI)
        || dist_sq_exec(from, origin) > (DIRECT_AGENT_MILLI as i128) * (
    DIRECT_AGENT_MILLI as i128) || dist_sq_exec(to, origin) > (DIRECT_AGENT_MILLI as i128) * (
    DIRECT_AGENT_MILLI as i128) {
        return NavigationResult { next_path_point: Some(to), next_and_last: None, ..res };
    }
    match res.next_and_last {
        Some((next, last)) => {
            let dn = dist_sq_exec(g.points[next], from);
            if dn < (REACH_DISTANCE_MILLI as i128) * (REACH_DISTANCE_MILLI as i128) {
                if next == last {
                    NavigationResult {
                        next_and_last: None,
                        next_path_point: Some(to),
                        last_reached: true,
                        ..res
                    }
                } else {
                    let nn = g.get_next(next, last, seed);
                    proof {
                        assert(nn as int == hop_of(g, next as int, last as int, seed));
                    }
                    NavigationResult {
                        next_and_last: Some((nn, last)),
                        next_path_point: Some(g.points[nn]),
                        ..res
                    }
                }
            } else {
                res
            }
        },
        None => {
            if !res.last_reached {
                let nf = g.get_nearest(from);
                let nt = g.get_nearest(to);
                if nf == nt {
                    NavigationResult {
                        next_and_last: None,
                        next_path_point: Some(to),
                        last_reached: true,
                        ..res
                    }
                } else {
                    let h = g.get_next(nf, nt, seed);
                    NavigationResult {
                        next_and_last: Some((h, nt)),
                        next_path_point: Some(g.points[h]),
                        ..res
                    }
                }
            } else {
                res
            }
        },
    }
}

/// Runtime step for an entity target; computes [`tick_entity`].
fn entity_step(
    g: &HiveGraph,
    res: NavigationResult,
    from: Point2,
    to: Point2,
    radius: i64,
    dt_ms: u64,
    seed: u64,
) -> (r: NavigationResult)
    requires
        g.wf(),
        res_wf(g, res),
        valid_pos(from),
        valid_pos(to),
        0 <= radius <= COORD_LIMIT,
    ensures
        r == tick_entity(g, res, from, to, radius as int, dt_ms, seed),
        res_wf(g, r),
{
    proof {
        lemma_square_consts();
        crate::geometry::lemma_dist_sq_bound(from, to);
    }
    let dsq = dist_sq_exec(from, to);
    let threshold: u64 = if dsq > 16_384_000_000 {
        1000
    } else if dsq > 4_096_000_000 {
        500
    } else {
        100
    };
    if !(res.time_since_refresh > threshold || res.next_path_point.is_none()) {
        let tsr = if dt_ms > u64::MAX - res.time_since_refresh {
            u64::MAX
        } else {
            res.time_since_refresh + dt_ms
        };
        return NavigationResult { time_since_refresh: tsr, ..res };
    }
    let r0 = NavigationResult { time_since_refresh: 0, ..res };
    proof {
        assert(0 <= (radius as int) * (radius as int) <= 1_000_000_000_000_000_000)
            by (nonlinear_arith)
            requires
                0 <= radius <= 1_000_000_000i64,
        ;
    }
    let rsq: i128 = (radius as i128) * (radius as i128);
    if 25 * dsq < 16 * rsq {
        return NavigationResult { target_reached: true, ..r0 };
    }
    if r0.target_reached {
        if dsq > rsq {
            return NavigationResult {
                target_reached: false,
                next_and_last: None,
                next_path_point: None,
                ..r0
            };
        }
        return r0;
    }
    let origin = Point2::origin();
    proof {
        crate::geometry::lemma_dist_sq_bound(from, origin);
        crate::geometry::lemma_dist_sq_bound(to, origin);
    }
    if !g.ready() || dist_to_segment_exceeds(from, to, origin, DIRECT_SEGMENT_ENTITY_MILLI)
        || dist_sq_exec(from, origin) > (DIRECT_AGENT_ENTITY_MILLI as i128) * (
    DIRECT_AGENT_ENTITY_MILLI as i128) || dist_sq_exec(to, origin) > (
    DIRECT_AGENT_ENTITY_MILLI as i128) * (DIRECT_AGENT_ENTITY_MILLI as i128) {
        return NavigationResult { next_path_point: Some(to), next_and_last: None, ..r0 };
    }
    match r0.next_and_last {
        Some((next, last)) => {
            let dn = dist_sq_exec(g.points[next], from);
            if dn < (REACH_DISTANCE_MILLI as i128) * (REACH_DISTANCE_MILLI as i128) {
                if next == last {
                    NavigationResult {
                        next_and_last: None,
                        next_path_point: Some(to),
                        last_reached: true,
                        ..r0
                    }
                } else {
                    let nl = g.get_nearest(to);
                    let nn = g.get_next(next, nl, seed);
                    NavigationResult {
                        next_and_last: Some((nn, nl)),
                        next_path_point: Some(g.points[nn]),
                        ..r0
                    }
                }
            } else {
                r0
            }
        },
        None => {
            if !r0.last_reached {
                let nf = g.get_nearest(from);
                let nt = g.get_nearest(to);
                if nf == nt {
                    NavigationResult {
                        next_and_last: None,
                        next_path_point: Some(to),
                        last_reached: true,
                        ..r0
                    }
                } else {
                    let h = g.get_next(nf, nt, seed);
                    NavigationResult {
                        next_and_last: Some((h, nt)),
                        next_path_point: Some(g.points[h]),
                        ..r0
                    }
                }
            } else {
                r0
            }
        },
    }
}

/// One navigation tick for one agent: reads the target, the agent's
/// position, the resolved target-entity position if any, the time step
/// and the per-agent seed, and rewrites the agent's navigation result to
/// exactly [`tick_spec`] of the old one.
pub fn navigation_tick(
    g: &HiveGraph,
    result: &mut NavigationResult,
    target: &NavigationTarget,
    target_changed: bool,
    from: Point2,
    entity_pos: Option<Point2>,
    dt_ms: u64,
    seed: u64,
)
    requires
        g.wf(),
        res_wf(g, *old(result)),
        valid_pos(from),
        *target matches NavigationTarget::Position(p) ==> valid_pos(p),
        entity_pos matches Some(p) ==> valid_pos(p),
        *target matches NavigationTarget::Entity(_, rad) ==> 0 <= rad <= COORD_LIMIT,
    ensures
        *final(result) == tick_spec(
            g,
            *old(result),
            *target,
            target_changed,
            from,
            entity_pos,
            dt_ms,
            seed,
        ),
        res_wf(g, *final(result)),
{
    match g.state {
        GraphState::Ready => {},
        GraphState::Failed => {},
        _ => { return ; },
    }
    let cur: NavigationResult = if target_changed {
        NavigationResult::default()
    } else {
        *result
    };
    match target {
        NavigationTarget::NoTarget => {
            let mut r = NavigationResult::default();
            r.target_reached = true;
            *result = r;
        },
        NavigationTarget::Position(to) => {
            *result = position_step(g, cur, from, *to, seed);
        },
        NavigationTarget::Entity(_, radius) => {
            match entity_pos {
                Some(to) => {
                    *result = entity_step(g, cur, from, to, *radius, dt_ms, seed);
                },
                None => {
                    *result = cur;
                },
            }
        },
    }
}

} // verus!

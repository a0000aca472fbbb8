//! The waypoint routing graph.
//!
//! Built exactly once, after the obstruction field is ready, in two
//! steps.  First, waypoints are sampled inside a circular working radius
//! by a farthest-point heuristic over a seeded generator, rejecting every
//! obstructed candidate.  Second, candidate edges from a planar
//! triangulation of those waypoints (triangle edges plus convex-hull
//! edges, supplied as index lists) are pruned against the obstruction
//! field, the surviving edges are recorded symmetrically, all-pairs
//! shortest-path distances are relaxed to a fixpoint, and a weighted
//! next-hop table is filled for every ordered waypoint pair.

use vstd::prelude::*;

use crate::apsp::{
    mat_at, mat_bounded, mat_symmetric, mat_triangle, mat_wf, mat_zero_diag, stabilize_distances,
    UNREACHED,
};
use crate::geometry::{dist_sq, dist_sq_exec, euclid_dist, lerp_coord, lerp_point, sqrt_floor,
    valid_pos, Point2};
use crate::hive_map::{obstruction_permille, HiveMap};
use crate::apsp::{chain_cost, entry_realized, min2, valid_chain};
use crate::rng::{ranged_stream, roll_percent, seeded_roll, SeededSampler};

verus! {

/// Number of waypoints the full-size graph aims for.
pub const HIVE_GRAPH_POINTS_NUMBER: usize = 512;

/// Radius of the circular sampling area, in milli-units (180 world units).
pub const HIVE_GRAPH_RADIUS_MILLI: i64 = 180_000;

/// Candidate draws spent on each waypoint slot.
pub const SAMPLE_TRIES: usize = 48;

/// Seed of the generator that lays out the waypoints, fixed so the
/// layout is reproducible across runs.
pub const SAMPLE_SEED: u64 = 1;

/// An edge sample showing more than this per-mille blockage kills the edge.
pub const PRUNE_THRESHOLD_PERMILLE: u32 = 100;

/// Largest waypoint count the build accepts; keeps every table index and
/// path-length sum comfortably in range.
pub const MAX_GRAPH_POINTS: usize = 4_096;

/// Build lifecycle of the graph.
#[derive(Clone, Copy, PartialEq, Eq, Structural, Debug)]
pub enum GraphState {
    /// Nothing built yet.
    Empty,
    /// Waypoints sampled; tables still missing.
    Sampled,
    /// Fully built and immutable.
    Ready,
    /// Construction failed for want of usable waypoints; permanent.
    Failed,
}

/// The fractional positions (percent along the edge) probed when pruning.
pub open spec fn sample_frac(s: int) -> int {
    if s == 0 {
        10
    } else if s == 1 {
        20
    } else if s == 2 {
        50
    } else if s == 3 {
        80
    } else {
        90
    }
}

fn sample_frac_exec(s: usize) -> (f: u64)
    requires
        s < 5,
    ensures
        f == sample_frac(s as int),
        10 <= f <= 90,
{
    if s == 0 {
        10
    } else if s == 1 {
        20
    } else if s == 2 {
        50
    } else if s == 3 {
        80
    } else {
        90
    }
}

/// The segment between `a` and `b` clears the obstruction field `src`:
/// all five interior samples report blockage at or below the prune
/// threshold.
pub open spec fn edge_clear(src: Seq<u32>, a: Point2, b: Point2) -> bool {
    forall|s: int|
        0 <= s < 5 ==> #[trigger] obstruction_permille(
            src,
            true,
            lerp_coord(a.x as int, b.x as int, sample_frac(s)),
            lerp_coord(a.y as int, b.y as int, sample_frac(s)),
        ) <= 100
}

/// Entry `t` of adjacency list `i`.
pub open spec fn adj_at(a: Seq<Vec<usize>>, i: int, t: int) -> int {
    a[i]@[t] as int
}

/// Does list `i` contain waypoint `j`?
pub open spec fn adj_has(a: Seq<Vec<usize>>, i: int, j: int) -> bool {
    exists|t: int| 0 <= t < a[i]@.len() && adj_at(a, i, t) == j
}

/// Adjacency shape: `n` lists whose entries are other waypoints' indices.
pub open spec fn adj_wf(a: Seq<Vec<usize>>, n: int) -> bool {
    a.len() == n && (forall|i: int, t: int|
        0 <= i < n && 0 <= t < a[i]@.len() ==> 0 <= #[trigger] adj_at(a, i, t) < n && adj_at(
            a,
            i,
            t,
        ) != i)
}

/// No adjacency list names the same neighbor twice.
pub open spec fn adj_nodup(a: Seq<Vec<usize>>, n: int) -> bool {
    forall|i: int, t1: int, t2: int|
        0 <= i < n && 0 <= t1 < t2 < a[i]@.len() ==> #[trigger] adj_at(a, i, t1)
            != #[trigger] adj_at(a, i, t2)
}

/// Every recorded edge is recorded in both directions.
pub open spec fn adj_sym(a: Seq<Vec<usize>>, n: int) -> bool {
    forall|i: int, j: int|
        0 <= i < n && 0 <= j < n ==> (#[trigger] adj_has(a, i, j) <==> adj_has(a, j, i))
}

/// Every recorded edge clears the obstruction field.
pub open spec fn adj_clear(a: Seq<Vec<usize>>, pts: Seq<Point2>, src: Seq<u32>, n: int) -> bool {
    forall|i: int, j: int|
        0 <= i < n && 0 <= j < n && #[trigger] adj_has(a, i, j) ==> edge_clear(src, pts[i], pts[j])
}

/// A sampled waypoint: valid, strictly inside the working radius, and on
/// completely unobstructed ground.
pub open spec fn waypoint_ok(src: Seq<u32>, p: Point2) -> bool {
    &&& valid_pos(p)
    &&& dist_sq(p, Point2::spec_origin()) < (HIVE_GRAPH_RADIUS_MILLI as int) * (
    HIVE_GRAPH_RADIUS_MILLI as int)
    &&& obstruction_permille(src, true, p.x as int, p.y as int) == 0
}

/// The precomputed routing graph.
pub struct HiveGraph {
    /// Where the build stands.
    pub state: GraphState,
    /// Sampled waypoint positions.
    pub points: Vec<Point2>,
    /// For each waypoint, the indices of its surviving neighbors.
    pub adjacent_points: Vec<Vec<usize>>,
    /// For each ordered pair, one or two weighted next-hop choices.
    pub next_points: Vec<Vec<Vec<(usize, u64)>>>,
    /// Convex hull of the waypoint set, as supplied by the triangulation.
    pub hull: Vec<usize>,
    /// All-pairs shortest-path distances in milli-units.
    pub distances: Vec<Vec<u64>>,
    /// The obstruction-field contents the graph was built against.
    pub source: Ghost<Seq<u32>>,
}

/// Cost of leaving `i` via `via` on the way to `f`, over distances `d`.
pub open spec fn hop_cost_in(d: Seq<Vec<u64>>, i: int, via: int, f: int) -> int {
    mat_at(d, i, via) + mat_at(d, via, f)
}

/// Position `b` holds the first cheapest entry of the neighbor list.
pub open spec fn first_best_in(d: Seq<Vec<u64>>, lst: Seq<usize>, i: int, f: int, b: int) -> bool {
    &&& 0 <= b < lst.len()
    &&& forall|t: int|
        0 <= t < lst.len() ==> #[trigger] hop_cost_in(d, i, lst[t] as int, f) >= hop_cost_in(
            d,
            i,
            lst[b] as int,
            f,
        )
    &&& forall|t: int|
        0 <= t < b ==> #[trigger] hop_cost_in(d, i, lst[t] as int, f) > hop_cost_in(
            d,
            i,
            lst[b] as int,
            f,
        )
}

/// Position `s` holds the first cheapest entry other than position `b`.
pub open spec fn second_best_in(
    d: Seq<Vec<u64>>,
    lst: Seq<usize>,
    i: int,
    f: int,
    b: int,
    s: int,
) -> bool {
    &&& 0 <= s < lst.len()
    &&& s != b
    &&& forall|t: int|
        0 <= t < lst.len() && t != b ==> #[trigger] hop_cost_in(d, i, lst[t] as int, f)
            >= hop_cost_in(d, i, lst[s] as int, f)
    &&& forall|t: int|
        0 <= t < s && t != b ==> #[trigger] hop_cost_in(d, i, lst[t] as int, f) > hop_cost_in(
            d,
            i,
            lst[s] as int,
            f,
        )
}

/// What the next-hop list for the ordered pair (`i`, `f`) holds: no
/// entry on the diagonal or for an isolated waypoint; the lone neighbor
/// with full weight; otherwise the two cheapest neighbors (ties broken
/// toward earlier positions) weighted 60/40.
pub open spec fn hop_entries_ok_in(
    d: Seq<Vec<u64>>,
    lst: Seq<usize>,
    e: Seq<(usize, u64)>,
    i: int,
    f: int,
) -> bool {
    if i == f || lst.len() == 0 {
        e.len() == 0
    } else if lst.len() == 1 {
        e.len() == 1 && e[0].0 == lst[0] && e[0].1 == 100
    } else {
        e.len() == 2 && e[0].1 == 60 && e[1].1 == 40 && e[0].0 != e[1].0 && exists|b: int, s: int|
            #[trigger] first_best_in(d, lst, i, f, b) && #[trigger] second_best_in(
                d,
                lst,
                i,
                f,
                b,
                s,
            ) && e[0].0 == lst[b] && e[1].0 == lst[s]
    }
}

impl HiveGraph {
    /// Number of waypoints.
    pub open spec fn n(&self) -> int {
        self.points@.len() as int
    }

    /// The next-hop list this graph holds for the ordered pair (`i`, `f`).
    pub open spec fn hop_entries_ok(&self, i: int, f: int) -> bool {
        hop_entries_ok_in(
            self.distances@,
            self.adjacent_points@[i]@,
            self.next_points@[i]@[f]@,
            i,
            f,
        )
    }

    /// Shape and meaning of the whole next-hop table.
    pub open spec fn next_table_ok(&self) -> bool {
        &&& self.next_points@.len() == self.n()
        &&& forall|i: int|
            0 <= i < self.n() ==> (#[trigger] self.next_points@[i])@.len() == self.n()
        &&& forall|i: int, f: int|
            0 <= i < self.n() && 0 <= f < self.n() ==> #[trigger] self.hop_entries_ok(i, f)
    }

    /// Well-formedness, by build state.  An empty or failed graph holds
    /// no tables; a sampled one holds only waypoints; a ready one holds
    /// consistent waypoints, adjacency, distances and hops.
    pub open spec fn wf(&self) -> bool {
        match self.state {
            GraphState::Empty => self.n() == 0,
            GraphState::Failed => true,
            GraphState::Sampled => {
                &&& self.n() <= MAX_GRAPH_POINTS
                &&& forall|i: int|
                    0 <= i < self.n() ==> waypoint_ok(self.source@, #[trigger] self.points@[i])
            },
            GraphState::Ready => {
                &&& 3 <= self.n() <= MAX_GRAPH_POINTS
                &&& forall|i: int|
                    0 <= i < self.n() ==> waypoint_ok(self.source@, #[trigger] self.points@[i])
                &&& adj_wf(self.adjacent_points@, self.n())
                &&& adj_nodup(self.adjacent_points@, self.n())
                &&& adj_sym(self.adjacent_points@, self.n())
                &&& adj_clear(self.adjacent_points@, self.points@, self.source@, self.n())
                &&& mat_wf(self.distances@, self.n())
                &&& mat_bounded(self.distances@, self.n(), UNREACHED as int)
                &&& mat_symmetric(self.distances@, self.n())
                &&& mat_zero_diag(self.distances@, self.n())
                &&& mat_triangle(self.distances@, self.n())
                &&& forall|i: int, j: int|
                    0 <= i < self.n() && 0 <= j < self.n() ==> #[trigger] distance_realized(
                        self.points@,
                        self.adjacent_points@,
                        self.distances@,
                        self.n(),
                        i,
                        j,
                    )
                &&& self.next_table_ok()
            },
        }
    }

    /// Is the graph ready to answer routing queries?
    pub open spec fn spec_ready(&self) -> bool {
        self.state is Ready
    }

    pub fn ready(&self) -> (r: bool)
        ensures
            r == self.spec_ready(),
    {
        match self.state {
            GraphState::Ready => true,
            _ => false,
        }
    }

    pub fn new() -> (g: HiveGraph)
        ensures
            g.wf(),
            g.state is Empty,
    {
        HiveGraph {
            state: GraphState::Empty,
            points: Vec::new(),
            adjacent_points: Vec::new(),
            next_points: Vec::new(),
            hull: Vec::new(),
            distances: Vec::new(),
            source: Ghost(Seq::empty()),
        }
    }

    /// First build step: samples up to `target_points` waypoints from the
    /// obstruction field by the farthest-point heuristic over the seeded
    /// generator.  The kept sequence is exactly [`sample_layout`], a
    /// function of the field contents and the slot count alone, so the
    /// layout is reproducible across runs.  Does nothing unless the
    /// graph is empty and the field is ready; never runs twice.
    pub fn begin_build(&mut self, map: &HiveMap, target_points: usize)
        requires
            old(self).wf(),
            map.wf(),
            target_points <= MAX_GRAPH_POINTS,
        ensures
            final(self).wf(),
            !(old(self).state is Empty) || !map.ready ==> *final(self) == *old(self),
            old(self).state is Empty && map.ready ==> {
                &&& final(self).state is Sampled
                &&& final(self).source@ == map.data@
                &&& final(self).points@ == sample_layout(map.data@, target_points as int)
                &&& final(self).points@.len() <= target_points
                &&& final(self).adjacent_points == old(self).adjacent_points
                &&& final(self).next_points == old(self).next_points
                &&& final(self).hull == old(self).hull
                &&& final(self).distances == old(self).distances
            },
    {
        match self.state {
            GraphState::Empty => {},
            _ => { return ; },
        }
        if !map.ready {
            return ;
        }
        let mut sampler = SeededSampler::new(SAMPLE_SEED);
        proof {
            assert(Seq::<(i64, i64)>::empty() =~= sample_hist(0));
        }
        let mut pts: Vec<Point2> = Vec::new();
        let mut slot: usize = 0;
        while slot < target_points
            invariant
                map.wf(),
                map.ready,
                pts@.len() <= slot <= target_points,
                forall|i: int| 0 <= i < pts@.len() ==> waypoint_ok(map.data@, #[trigger] pts@[i]),
                sampler.spec_seed() == SAMPLE_SEED,
                sampler.spec_history() == sample_hist(2 * (SAMPLE_TRIES as int) * slot),
                pts@ == sample_layout(map.data@, slot as int),
            decreases target_points - slot,
        {
            let ghost prev = pts@;
            let cand = sample_candidate(map, &mut sampler, &pts, Ghost(slot as int));
            match cand {
                Some(p) => {
                    pts.push(p);
                },
                None => {},
            }
            slot = slot + 1;
            proof {
                assert(pts@ == sample_layout(map.data@, slot as int));
            }
        }
        self.points = pts;
        self.source = Ghost(map.data@);
        self.state = GraphState::Sampled;
    }
}

/// History of the first `k` sampling draws: every draw spans the full
/// working range on one axis.
pub open spec fn sample_hist(k: int) -> Seq<(i64, i64)> {
    Seq::new(k as nat, |i: int| ((-HIVE_GRAPH_RADIUS_MILLI) as i64, HIVE_GRAPH_RADIUS_MILLI))
}

/// The `k`-th coordinate the build's seeded generator yields; a pure
/// function, so the sampled layout is reproducible across runs.
pub open spec fn sample_draw(k: int) -> i64 {
    ranged_stream(
        SAMPLE_SEED,
        sample_hist(k),
        (-HIVE_GRAPH_RADIUS_MILLI) as i64,
        HIVE_GRAPH_RADIUS_MILLI,
    )
}

/// Candidate `t` of slot `s`: the next two draws, x then y.
pub open spec fn candidate_point(s: int, t: int) -> Point2 {
    Point2 {
        x: sample_draw(2 * ((SAMPLE_TRIES as int) * s + t)),
        y: sample_draw(2 * ((SAMPLE_TRIES as int) * s + t) + 1),
    }
}

/// Smallest squared distance from `p` to the first `k` points; the
/// maximum value when there is none.
pub open spec fn min_sep_upto(pts: Seq<Point2>, p: Point2, k: int) -> int
    decreases k,
{
    if k <= 0 {
        u64::MAX as int
    } else {
        min2(min_sep_upto(pts, p, k - 1), dist_sq(pts[k - 1], p))
    }
}

/// Smallest squared distance from `p` to any of the points; the maximum
/// value when there are none.
pub open spec fn min_sep(pts: Seq<Point2>, p: Point2) -> int {
    min_sep_upto(pts, p, pts.len() as int)
}

/// Does candidate `t` of slot `s` pass the radius and obstruction
/// filters over field `src`?
pub open spec fn candidate_admitted(src: Seq<u32>, s: int, t: int) -> bool {
    let p = candidate_point(s, t);
    &&& dist_sq(p, Point2::spec_origin()) < (HIVE_GRAPH_RADIUS_MILLI as int) * (
    HIVE_GRAPH_RADIUS_MILLI as int)
    &&& obstruction_permille(src, true, p.x as int, p.y as int) == 0
}

/// Index of the winning try among the first `k` of slot `s`: the first
/// admitted candidate strictly maximizing the separation from the points
/// kept so far; -1 when none qualifies (a candidate on top of a kept
/// point has separation 0 and never wins).
pub open spec fn best_try(src: Seq<u32>, prev: Seq<Point2>, s: int, k: int) -> int
    decreases k,
{
    if k <= 0 {
        -1
    } else {
        let b = best_try(src, prev, s, k - 1);
        let prev_sep = if b < 0 {
            0
        } else {
            min_sep(prev, candidate_point(s, b))
        };
        if candidate_admitted(src, s, k - 1) && min_sep(prev, candidate_point(s, k - 1))
            > prev_sep {
            k - 1
        } else {
            b
        }
    }
}

/// The exact waypoint sequence a build over field `src` keeps after
/// filling `slots` slots: one batch of draws per slot, keeping the
/// winner when there is one.
pub open spec fn sample_layout(src: Seq<u32>, slots: int) -> Seq<Point2>
    decreases slots,
{
    if slots <= 0 {
        Seq::<Point2>::empty()
    } else {
        let prev = sample_layout(src, slots - 1);
        let b = best_try(src, prev, slots - 1, SAMPLE_TRIES as int);
        if b < 0 {
            prev
        } else {
            prev.push(candidate_point(slots - 1, b))
        }
    }
}

/// Draws one batch of candidates for slot `slot` and keeps the first
/// one that passes the filters and strictly maximizes the separation
/// from the kept points: exactly the slot's [`best_try`] winner.
fn sample_candidate(
    map: &HiveMap,
    sampler: &mut SeededSampler,
    pts: &Vec<Point2>,
    Ghost(slot): Ghost<int>,
) -> (r: Option<Point2>)
    requires
        map.wf(),
        map.ready,
        forall|i: int| 0 <= i < pts@.len() ==> valid_pos(#[trigger] pts@[i]),
        slot >= 0,
        old(sampler).spec_seed() == SAMPLE_SEED,
        old(sampler).spec_history() == sample_hist(2 * (SAMPLE_TRIES as int) * slot),
    ensures
        final(sampler).spec_seed() == SAMPLE_SEED,
        final(sampler).spec_history() == sample_hist(2 * (SAMPLE_TRIES as int) * (slot + 1)),
        (best_try(map.data@, pts@, slot, SAMPLE_TRIES as int) < 0 <==> r is None),
        best_try(map.data@, pts@, slot, SAMPLE_TRIES as int) >= 0 ==> r == Some(
            candidate_point(slot, best_try(map.data@, pts@, slot, SAMPLE_TRIES as int)),
        ),
        r matches Some(p) ==> waypoint_ok(map.data@, p) && min_sep(pts@, p) > 0,
{
    let mut best: Option<Point2> = None;
    let mut best_sep: u64 = 0;
    let mut t: usize = 0;
    while t < SAMPLE_TRIES
        invariant
            map.wf(),
            map.ready,
            forall|i: int| 0 <= i < pts@.len() ==> valid_pos(#[trigger] pts@[i]),
            slot >= 0,
            t <= SAMPLE_TRIES,
            sampler.spec_seed() == SAMPLE_SEED,
            sampler.spec_history() == sample_hist(2 * (SAMPLE_TRIES as int) * slot + 2 * t),
            (best_try(map.data@, pts@, slot, t as int) < 0 <==> best is None),
            best is None ==> best_sep == 0,
            best matches Some(p) ==> best_try(map.data@, pts@, slot, t as int) >= 0 && p
                == candidate_point(slot, best_try(map.data@, pts@, slot, t as int)),
            best matches Some(p) ==> best_sep as int == min_sep(pts@, p) && best_sep > 0,
            best matches Some(p) ==> waypoint_ok(map.data@, p),
        decreases SAMPLE_TRIES - t,
    {
        let ghost k0 = 2 * (SAMPLE_TRIES as int) * slot + 2 * t;
        let x = sampler.draw(-HIVE_GRAPH_RADIUS_MILLI, HIVE_GRAPH_RADIUS_MILLI);
        proof {
            assert(sample_hist(k0).push(
                ((-HIVE_GRAPH_RADIUS_MILLI) as i64, HIVE_GRAPH_RADIUS_MILLI),
            ) =~= sample_hist(k0 + 1));
        }
        let y = sampler.draw(-HIVE_GRAPH_RADIUS_MILLI, HIVE_GRAPH_RADIUS_MILLI);
        proof {
            assert(sample_hist(k0 + 1).push(
                ((-HIVE_GRAPH_RADIUS_MILLI) as i64, HIVE_GRAPH_RADIUS_MILLI),
            ) =~= sample_hist(k0 + 2));
        }
        let p = Point2 { x, y };
        proof {
            assert(2 * ((SAMPLE_TRIES as int) * slot + t) == 2 * (SAMPLE_TRIES as int) * slot + 2
                * t) by (nonlinear_arith);
            assert(k0 == 2 * ((SAMPLE_TRIES as int) * slot + t));
            assert(x == sample_draw(2 * ((SAMPLE_TRIES as int) * slot + t)));
            assert(y == sample_draw(2 * ((SAMPLE_TRIES as int) * slot + t) + 1));
            assert(p == candidate_point(slot, t as int));
            assert((HIVE_GRAPH_RADIUS_MILLI as int) * (HIVE_GRAPH_RADIUS_MILLI as int)
                == 32_400_000_000) by (nonlinear_arith)
                requires
                    HIVE_GRAPH_RADIUS_MILLI == 180_000i64,
            ;
        }
        let psq = dist_sq_exec(p, Point2::origin());
        let admitted = psq < (HIVE_GRAPH_RADIUS_MILLI as i128) * (HIVE_GRAPH_RADIUS_MILLI as i128)
            && map.get_obstruction_xy(x, y) == 0;
        proof {
            assert(admitted == candidate_admitted(map.data@, slot, t as int));
        }
        if admitted {
            let sep = nearest_separation(pts, p);
            if sep > best_sep {
                best_sep = sep;
                best = Some(p);
            }
        }
        t = t + 1;
    }
    proof {
        assert(2 * (SAMPLE_TRIES as int) * (slot + 1) == 2 * (SAMPLE_TRIES as int) * slot + 2 * (
        SAMPLE_TRIES as int)) by (nonlinear_arith);
    }
    best
}

/// Smallest squared distance from `p` to any existing waypoint; the
/// maximum when there is none yet.
fn nearest_separation(pts: &Vec<Point2>, p: Point2) -> (r: u64)
    requires
        valid_pos(p),
        forall|i: int| 0 <= i < pts@.len() ==> valid_pos(#[trigger] pts@[i]),
    ensures
        r as int == min_sep(pts@, p),
{
    let mut closest: u64 = u64::MAX;
    let mut i: usize = 0;
    while i < pts.len()
        invariant
            valid_pos(p),
            forall|k: int| 0 <= k < pts@.len() ==> valid_pos(#[trigger] pts@[k]),
            i <= pts@.len(),
            closest as int == min_sep_upto(pts@, p, i as int),
        decreases pts@.len() - i,
    {
        proof {
            crate::geometry::lemma_dist_sq_bound(pts@[i as int], p);
        }
        let d = dist_sq_exec(pts[i], p) as u64;
        if d < closest {
            closest = d;
        }
        i = i + 1;
    }
    closest
}

/// Does the list contain `x`?
fn vec_contains(v: &Vec<usize>, x: usize) -> (r: bool)
    ensures
        r == exists|t: int| 0 <= t < v@.len() && v@[t] == x,
{
    let mut t: usize = 0;
    while t < v.len()
        invariant
            t <= v@.len(),
            forall|k: int| 0 <= k < t ==> v@[k] != x,
        decreases v@.len() - t,
    {
        if v[t] == x {
            return true;
        }
        t = t + 1;
    }
    false
}

/// Probes the five interior samples of the segment against the field.
fn edge_clear_exec(map: &HiveMap, a: Point2, b: Point2) -> (r: bool)
    requires
        map.wf(),
        map.ready,
        valid_pos(a),
        valid_pos(b),
    ensures
        r == edge_clear(map.data@, a, b),
{
    let mut s: usize = 0;
    while s < 5
        invariant
            map.wf(),
            map.ready,
            valid_pos(a),
            valid_pos(b),
            s <= 5,
            forall|k: int|
                0 <= k < s ==> #[trigger] obstruction_permille(
                    map.data@,
                    true,
                    lerp_coord(a.x as int, b.x as int, sample_frac(k)),
                    lerp_coord(a.y as int, b.y as int, sample_frac(k)),
                ) <= 100,
        decreases 5 - s,
    {
        let f = sample_frac_exec(s);
        let p = lerp_point(a, b, f);
        if map.get_obstruction(p) > PRUNE_THRESHOLD_PERMILLE {
            return false;
        }
        s = s + 1;
    }
    true
}

/// Appends `x` to the list at position `i`, leaving all other lists be.
fn list_push(v: &mut Vec<Vec<usize>>, i: usize, x: usize)
    requires
        i < old(v)@.len(),
    ensures
        final(v)@.len() == old(v)@.len(),
        (final(v)@[i as int])@ == (old(v)@[i as int])@.push(x),
        forall|k: int| 0 <= k < old(v)@.len() && k != i ==> final(v)@[k] == old(v)@[k],
{
    let slot: &mut Vec<usize> = &mut v[i];
    slot.push(x);
}

/// The adjacency invariant carried through edge insertion.
pub open spec fn adj_ok(a: Seq<Vec<usize>>, pts: Seq<Point2>, src: Seq<u32>) -> bool {
    &&& adj_wf(a, pts.len() as int)
    &&& adj_nodup(a, pts.len() as int)
    &&& adj_sym(a, pts.len() as int)
    &&& adj_clear(a, pts, src, pts.len() as int)
}

/// A candidate edge survives pruning when both ends are real, distinct
/// waypoints and its segment clears the field.
pub open spec fn edge_admissible(pts: Seq<Point2>, src: Seq<u32>, a: int, b: int) -> bool {
    &&& 0 <= a < pts.len()
    &&& 0 <= b < pts.len()
    &&& a != b
    &&& edge_clear(src, pts[a], pts[b])
}

/// One oriented edge of the triangle triple beginning at position `p`.
pub open spec fn tri_edge_at(tri: Seq<usize>, p: int, a: int, b: int) -> bool {
    ||| (tri[p] as int == a && tri[p + 1] as int == b)
    ||| (tri[p + 1] as int == a && tri[p + 2] as int == b)
    ||| (tri[p + 2] as int == a && tri[p] as int == b)
}

/// Does a complete triangle triple beginning before `lim` carry the
/// oriented edge (`a`, `b`)?
pub open spec fn tri_candidate(tri: Seq<usize>, a: int, b: int, lim: int) -> bool {
    exists|p: int|
        0 <= p < lim && p % 3 == 0 && p + 2 < tri.len() && #[trigger] tri_edge_at(tri, p, a, b)
}

/// The hull vertex preceding position `h`, wrapping at the start.
pub open spec fn hull_prev(hull: Seq<usize>, h: int) -> int {
    if h == 0 {
        hull.len() - 1
    } else {
        h - 1
    }
}

/// Does the hull boundary, among its first `lim` vertices, carry the
/// oriented edge (`a`, `b`)?
pub open spec fn hull_candidate(hull: Seq<usize>, a: int, b: int, lim: int) -> bool {
    exists|h: int|
        0 <= h < lim && #[trigger] hull[h] as int == a && hull[hull_prev(hull, h)] as int == b
}

/// An edge recorded after pruning the candidates seen so far: the first
/// `tlim` triangle positions and `hlim` hull vertices.
pub open spec fn edge_kept_upto(
    tri: Seq<usize>,
    hull: Seq<usize>,
    pts: Seq<Point2>,
    src: Seq<u32>,
    a: int,
    b: int,
    tlim: int,
    hlim: int,
) -> bool {
    &&& edge_admissible(pts, src, a, b)
    &&& (tri_candidate(tri, a, b, tlim) || tri_candidate(tri, b, a, tlim) || hull_candidate(
        hull,
        a,
        b,
        hlim,
    ) || hull_candidate(hull, b, a, hlim))
}

/// An edge of the finished graph: a candidate edge of the triangulation
/// or of the hull boundary, in either direction, that survives pruning.
pub open spec fn edge_kept(
    tri: Seq<usize>,
    hull: Seq<usize>,
    pts: Seq<Point2>,
    src: Seq<u32>,
    a: int,
    b: int,
) -> bool {
    edge_kept_upto(tri, hull, pts, src, a, b, tri.len() as int, hull.len() as int)
}

/// Admissibility reads the same in both directions, because the five
/// segment samples do.
proof fn lemma_edge_admissible_sym(pts: Seq<Point2>, src: Seq<u32>, a: int, b: int)
    requires
        edge_admissible(pts, src, a, b),
    ensures
        edge_admissible(pts, src, b, a),
{
    lemma_edge_clear_sym(src, pts[a], pts[b]);
}

/// Recording the three edges of the triangle triple at position `ti`
/// extends the kept-edge characterization by exactly that triple.
proof fn lemma_triple_step(
    tri: Seq<usize>,
    hull: Seq<usize>,
    pts: Seq<Point2>,
    src: Seq<u32>,
    adj0: Seq<Vec<usize>>,
    adj1: Seq<Vec<usize>>,
    adj2: Seq<Vec<usize>>,
    adj3: Seq<Vec<usize>>,
    ti: int,
    a: int,
    b: int,
    c: int,
)
    requires
        0 <= ti,
        ti % 3 == 0,
        ti + 2 < tri.len(),
        a == tri[ti] as int,
        b == tri[ti + 1] as int,
        c == tri[ti + 2] as int,
        forall|x: int, y: int|
            0 <= x < pts.len() && 0 <= y < pts.len() ==> (#[trigger] adj_has(adj0, x, y)
                <==> edge_kept_upto(tri, hull, pts, src, x, y, ti, 0)),
        forall|x: int, y: int|
            0 <= x < pts.len() && 0 <= y < pts.len() ==> (#[trigger] adj_has(adj1, x, y) <==> (
            adj_has(adj0, x, y) || (edge_admissible(pts, src, a, b) && ((x == a && y == b) || (x
                == b && y == a))))),
        forall|x: int, y: int|
            0 <= x < pts.len() && 0 <= y < pts.len() ==> (#[trigger] adj_has(adj2, x, y) <==> (
            adj_has(adj1, x, y) || (edge_admissible(pts, src, b, c) && ((x == b && y == c) || (x
                == c && y == b))))),
        forall|x: int, y: int|
            0 <= x < pts.len() && 0 <= y < pts.len() ==> (#[trigger] adj_has(adj3, x, y) <==> (
            adj_has(adj2, x, y) || (edge_admissible(pts, src, c, a) && ((x == c && y == a) || (x
                == a && y == c))))),
    ensures
        forall|x: int, y: int|
            0 <= x < pts.len() && 0 <= y < pts.len() ==> (#[trigger] adj_has(adj3, x, y)
                <==> edge_kept_upto(tri, hull, pts, src, x, y, ti + 3, 0)),
{
    assert forall|x: int, y: int| 0 <= x < pts.len() && 0 <= y < pts.len() implies (
    #[trigger] adj_has(adj3, x, y) <==> edge_kept_upto(tri, hull, pts, src, x, y, ti + 3, 0)) by {
        assert(tri_edge_at(tri, ti, a, b));
        assert(tri_edge_at(tri, ti, b, c));
        assert(tri_edge_at(tri, ti, c, a));
        if adj_has(adj3, x, y) {
            if adj_has(adj0, x, y) {
                assert(edge_kept_upto(tri, hull, pts, src, x, y, ti, 0));
                if tri_candidate(tri, x, y, ti) {
                    let p = choose|p: int|
                        0 <= p < ti && p % 3 == 0 && p + 2 < tri.len() && #[trigger] tri_edge_at(
                            tri,
                            p,
                            x,
                            y,
                        );
                    assert(tri_candidate(tri, x, y, ti + 3));
                } else {
                    let p = choose|p: int|
                        0 <= p < ti && p % 3 == 0 && p + 2 < tri.len() && #[trigger] tri_edge_at(
                            tri,
                            p,
                            y,
                            x,
                        );
                    assert(tri_candidate(tri, y, x, ti + 3));
                }
            } else {
                if edge_admissible(pts, src, a, b) && ((x == a && y == b) || (x == b && y
                    == a)) {
                    if x == a && y == b {
                        assert(tri_candidate(tri, x, y, ti + 3));
                    } else {
                        lemma_edge_admissible_sym(pts, src, a, b);
                        assert(tri_candidate(tri, y, x, ti + 3));
                    }
                } else if edge_admissible(pts, src, b, c) && ((x == b && y == c) || (x == c && y
                    == b)) {
                    if x == b && y == c {
                        assert(tri_candidate(tri, x, y, ti + 3));
                    } else {
                        lemma_edge_admissible_sym(pts, src, b, c);
                        assert(tri_candidate(tri, y, x, ti + 3));
                    }
                } else {
                    assert(edge_admissible(pts, src, c, a) && ((x == c && y == a) || (x == a && y
                        == c)));
                    if x == c && y == a {
                        assert(tri_candidate(tri, x, y, ti + 3));
                    } else {
                        lemma_edge_admissible_sym(pts, src, c, a);
                        assert(tri_candidate(tri, y, x, ti + 3));
                    }
                }
            }
        }
        if edge_kept_upto(tri, hull, pts, src, x, y, ti + 3, 0) {
            assert(!hull_candidate(hull, x, y, 0));
            assert(!hull_candidate(hull, y, x, 0));
            if tri_candidate(tri, x, y, ti + 3) {
                let p = choose|p: int|
                    0 <= p < ti + 3 && p % 3 == 0 && p + 2 < tri.len() && #[trigger] tri_edge_at(
                        tri,
                        p,
                        x,
                        y,
                    );
                if p < ti {
                    assert(tri_candidate(tri, x, y, ti));
                    assert(adj_has(adj0, x, y));
                } else {
                    assert(p == ti);
                    lemma_oriented_edge_recorded(pts, src, adj0, adj1, adj2, adj3, a, b, c, x, y);
                }
            } else {
                assert(tri_candidate(tri, y, x, ti + 3));
                let p = choose|p: int|
                    0 <= p < ti + 3 && p % 3 == 0 && p + 2 < tri.len() && #[trigger] tri_edge_at(
                        tri,
                        p,
                        y,
                        x,
                    );
                if p < ti {
                    assert(tri_candidate(tri, y, x, ti));
                    assert(adj_has(adj0, x, y));
                } else {
                    assert(p == ti);
                    lemma_edge_admissible_sym(pts, src, x, y);
                    lemma_oriented_edge_recorded(pts, src, adj0, adj1, adj2, adj3, a, b, c, y, x);
                    assert(adj_has(adj3, y, x));
                    assert(adj_has(adj3, x, y) <==> (adj_has(adj2, x, y) || (edge_admissible(
                        pts,
                        src,
                        c,
                        a,
                    ) && ((x == c && y == a) || (x == a && y == c)))));
                }
            }
        }
    }
}

/// An oriented edge of the processed triple, once admissible, stands in
/// the final adjacency (in that orientation).
proof fn lemma_oriented_edge_recorded(
    pts: Seq<Point2>,
    src: Seq<u32>,
    adj0: Seq<Vec<usize>>,
    adj1: Seq<Vec<usize>>,
    adj2: Seq<Vec<usize>>,
    adj3: Seq<Vec<usize>>,
    a: int,
    b: int,
    c: int,
    x: int,
    y: int,
)
    requires
        0 <= x < pts.len(),
        0 <= y < pts.len(),
        edge_admissible(pts, src, x, y),
        (x == a && y == b) || (x == b && y == c) || (x == c && y == a),
        forall|u: int, v: int|
            0 <= u < pts.len() && 0 <= v < pts.len() ==> (#[trigger] adj_has(adj1, u, v) <==> (
            adj_has(adj0, u, v) || (edge_admissible(pts, src, a, b) && ((u == a && v == b) || (u
                == b && v == a))))),
        forall|u: int, v: int|
            0 <= u < pts.len() && 0 <= v < pts.len() ==> (#[trigger] adj_has(adj2, u, v) <==> (
            adj_has(adj1, u, v) || (edge_admissible(pts, src, b, c) && ((u == b && v == c) || (u
                == c && v == b))))),
        forall|u: int, v: int|
            0 <= u < pts.len() && 0 <= v < pts.len() ==> (#[trigger] adj_has(adj3, u, v) <==> (
            adj_has(adj2, u, v) || (edge_admissible(pts, src, c, a) && ((u == c && v == a) || (u
                == a && v == c))))),
    ensures
        adj_has(adj3, x, y),
{
    if x == a && y == b {
        assert(adj_has(adj1, x, y));
        assert(adj_has(adj2, x, y));
    } else if x == b && y == c {
        assert(adj_has(adj2, x, y));
    }
}

/// Recording one hull boundary edge extends the characterization by one
/// hull vertex.
proof fn lemma_hull_step(
    tri: Seq<usize>,
    hull: Seq<usize>,
    pts: Seq<Point2>,
    src: Seq<u32>,
    adj0: Seq<Vec<usize>>,
    adj1: Seq<Vec<usize>>,
    hi: int,
    a: int,
    b: int,
)
    requires
        0 <= hi < hull.len(),
        a == hull[hi] as int,
        b == hull[hull_prev(hull, hi)] as int,
        forall|x: int, y: int|
            0 <= x < pts.len() && 0 <= y < pts.len() ==> (#[trigger] adj_has(adj0, x, y)
                <==> edge_kept_upto(tri, hull, pts, src, x, y, tri.len() as int, hi)),
        forall|x: int, y: int|
            0 <= x < pts.len() && 0 <= y < pts.len() ==> (#[trigger] adj_has(adj1, x, y) <==> (
            adj_has(adj0, x, y) || (edge_admissible(pts, src, a, b) && ((x == a && y == b) || (x
                == b && y == a))))),
    ensures
        forall|x: int, y: int|
            0 <= x < pts.len() && 0 <= y < pts.len() ==> (#[trigger] adj_has(adj1, x, y)
                <==> edge_kept_upto(tri, hull, pts, src, x, y, tri.len() as int, hi + 1)),
{
    assert forall|x: int, y: int| 0 <= x < pts.len() && 0 <= y < pts.len() implies (
    #[trigger] adj_has(adj1, x, y) <==> edge_kept_upto(
        tri,
        hull,
        pts,
        src,
        x,
        y,
        tri.len() as int,
        hi + 1,
    )) by {
        if adj_has(adj1, x, y) {
            if adj_has(adj0, x, y) {
                assert(edge_kept_upto(tri, hull, pts, src, x, y, tri.len() as int, hi));
                if hull_candidate(hull, x, y, hi) {
                    let h = choose|h: int|
                        0 <= h < hi && #[trigger] hull[h] as int == x && hull[hull_prev(hull, h)]
                            as int == y;
                    assert(hull_candidate(hull, x, y, hi + 1));
                } else if hull_candidate(hull, y, x, hi) {
                    let h = choose|h: int|
                        0 <= h < hi && #[trigger] hull[h] as int == y && hull[hull_prev(hull, h)]
                            as int == x;
                    assert(hull_candidate(hull, y, x, hi + 1));
                }
            } else {
                assert(hull[hi] as int == a && hull[hull_prev(hull, hi)] as int == b);
                if x == a && y == b {
                    assert(hull_candidate(hull, x, y, hi + 1));
                } else {
                    assert(x == b && y == a);
                    lemma_edge_admissible_sym(pts, src, a, b);
                    assert(hull_candidate(hull, y, x, hi + 1));
                }
            }
        }
        if edge_kept_upto(tri, hull, pts, src, x, y, tri.len() as int, hi + 1) {
            if tri_candidate(tri, x, y, tri.len() as int) || tri_candidate(
                tri,
                y,
                x,
                tri.len() as int,
            ) {
                assert(edge_kept_upto(tri, hull, pts, src, x, y, tri.len() as int, hi));
                assert(adj_has(adj0, x, y));
            } else if hull_candidate(hull, x, y, hi + 1) {
                let h = choose|h: int|
                    0 <= h < hi + 1 && #[trigger] hull[h] as int == x && hull[hull_prev(hull, h)]
                        as int == y;
                if h < hi {
                    assert(hull_candidate(hull, x, y, hi));
                    assert(adj_has(adj0, x, y));
                } else {
                    assert(h == hi);
                    assert(x == a && y == b);
                }
            } else {
                assert(hull_candidate(hull, y, x, hi + 1));
                let h = choose|h: int|
                    0 <= h < hi + 1 && #[trigger] hull[h] as int == y && hull[hull_prev(hull, h)]
                        as int == x;
                if h < hi {
                    assert(hull_candidate(hull, y, x, hi));
                    assert(adj_has(adj0, x, y));
                } else {
                    assert(h == hi);
                    assert(y == a && x == b);
                    lemma_edge_admissible_sym(pts, src, x, y);
                }
            }
        }
    }
}

/// Once the triangle loop has passed the last complete triple, the
/// candidates seen are all the candidates there are.
proof fn lemma_tri_limit_settled(
    tri: Seq<usize>,
    hull: Seq<usize>,
    pts: Seq<Point2>,
    src: Seq<u32>,
    x: int,
    y: int,
    ti: int,
)
    requires
        0 <= ti <= tri.len(),
        ti % 3 == 0,
        tri.len() < 3 || ti > tri.len() - 3,
    ensures
        edge_kept_upto(tri, hull, pts, src, x, y, ti, 0) == edge_kept_upto(
            tri,
            hull,
            pts,
            src,
            x,
            y,
            tri.len() as int,
            0,
        ),
{
    assert(tri_candidate(tri, x, y, ti) == tri_candidate(tri, x, y, tri.len() as int)) by {
        lemma_tri_candidate_settled(tri, x, y, ti);
    }
    assert(tri_candidate(tri, y, x, ti) == tri_candidate(tri, y, x, tri.len() as int)) by {
        lemma_tri_candidate_settled(tri, y, x, ti);
    }
}

/// Every complete triple starts at least three positions before the end,
/// so a limit past that point finds no further candidates.
proof fn lemma_tri_candidate_settled(tri: Seq<usize>, x: int, y: int, ti: int)
    requires
        0 <= ti <= tri.len(),
        tri.len() < 3 || ti > tri.len() - 3,
    ensures
        tri_candidate(tri, x, y, ti) == tri_candidate(tri, x, y, tri.len() as int),
{
    if tri_candidate(tri, x, y, ti) {
        let p = choose|p: int|
            0 <= p < ti && p % 3 == 0 && p + 2 < tri.len() && #[trigger] tri_edge_at(tri, p, x, y);
        assert(tri_candidate(tri, x, y, tri.len() as int));
    }
    if tri_candidate(tri, x, y, tri.len() as int) {
        let p = choose|p: int|
            0 <= p < tri.len() && p % 3 == 0 && p + 2 < tri.len() && #[trigger] tri_edge_at(
                tri,
                p,
                x,
                y,
            );
        assert(p <= tri.len() - 3);
        assert(p < ti);
        assert(tri_candidate(tri, x, y, ti));
    }
}

/// Considers the candidate edge (`a`, `b`): ignores it when out of
/// range, degenerate, already recorded, or blocked; otherwise records it
/// in both directions.
fn try_add_edge(adj: &mut Vec<Vec<usize>>, map: &HiveMap, pts: &Vec<Point2>, a: usize, b: usize)
    requires
        map.wf(),
        map.ready,
        forall|i: int| 0 <= i < pts@.len() ==> valid_pos(#[trigger] pts@[i]),
        adj_ok(old(adj)@, pts@, map.data@),
    ensures
        adj_ok(final(adj)@, pts@, map.data@),
        final(adj)@.len() == old(adj)@.len(),
        forall|i: int, j: int|
            0 <= i < pts@.len() && 0 <= j < pts@.len() ==> (#[trigger] adj_has(final(adj)@, i, j)
                <==> (adj_has(old(adj)@, i, j) || (edge_admissible(
                pts@,
                map.data@,
                a as int,
                b as int,
            ) && ((i == a && j == b) || (i == b && j == a))))),
{
    let n = pts.len();
    if a >= n || b >= n || a == b {
        return ;
    }
    if vec_contains(&adj[a], b) {
        proof {
            let t = choose|t: int| 0 <= t < adj@[a as int]@.len() && adj@[a as int]@[t] == b;
            assert(adj_at(adj@, a as int, t) == b);
            assert(adj_has(adj@, a as int, b as int));
            assert(adj_has(adj@, b as int, a as int));
        }
        return ;
    }
    if !edge_clear_exec(map, pts[a], pts[b]) {
        return ;
    }
    let ghost a0 = adj@;
    list_push(adj, a, b);
    list_push(adj, b, a);
    proof {
        let a2 = adj@;
        let ghost la0 = a0[a as int]@;
        let ghost lb0 = a0[b as int]@;
        assert(a2[a as int]@ == la0.push(b));
        assert(a2[b as int]@ == lb0.push(a));
        assert forall|i: int, j: int|
            0 <= i < n && 0 <= j < n && #[trigger] adj_has(a2, i, j) implies (adj_has(a0, i, j) || (
        i == a && j == b) || (i == b && j == a)) by {
            let t = choose|t: int| 0 <= t < a2[i]@.len() && adj_at(a2, i, t) == j;
            if i == a {
                if t < la0.len() {
                    assert(adj_at(a0, i, t) == j);
                    assert(adj_has(a0, i, j));
                } else {
                    assert(a2[i]@[t] == b);
                }
            } else if i == b {
                if t < lb0.len() {
                    assert(adj_at(a0, i, t) == j);
                    assert(adj_has(a0, i, j));
                } else {
                    assert(a2[i]@[t] == a);
                }
            } else {
                assert(a2[i] == a0[i]);
                assert(adj_at(a0, i, t) == j);
                assert(adj_has(a0, i, j));
            }
        }
        assert forall|i: int, j: int|
            0 <= i < n && 0 <= j < n && adj_has(a0, i, j) implies #[trigger] adj_has(
            a2,
            i,
            j,
        ) by {
            let t = choose|t: int| 0 <= t < a0[i]@.len() && adj_at(a0, i, t) == j;
            if i == a {
                assert(a2[i]@[t] == a0[i]@[t]);
                assert(adj_at(a2, i, t) == j);
            } else if i == b {
                assert(a2[i]@[t] == a0[i]@[t]);
                assert(adj_at(a2, i, t) == j);
            } else {
                assert(a2[i] == a0[i]);
                assert(adj_at(a2, i, t) == j);
            }
        }
        assert(adj_has(a2, a as int, b as int)) by {
            assert(a2[a as int]@[la0.len() as int] == b);
            assert(adj_at(a2, a as int, la0.len() as int) == b);
        }
        assert(adj_has(a2, b as int, a as int)) by {
            assert(a2[b as int]@[lb0.len() as int] == a);
            assert(adj_at(a2, b as int, lb0.len() as int) == a);
        }
        assert(adj_wf(a2, n as int)) by {
            assert forall|i: int, t: int|
                0 <= i < n && 0 <= t < a2[i]@.len() implies 0 <= #[trigger] adj_at(a2, i, t) < n
                && adj_at(a2, i, t) != i by {
                if i == a && t == la0.len() {
                } else if i == b && t == lb0.len() {
                } else if i == a {
                    assert(adj_at(a2, i, t) == adj_at(a0, i, t));
                } else if i == b {
                    assert(adj_at(a2, i, t) == adj_at(a0, i, t));
                } else {
                    assert(a2[i] == a0[i]);
                    assert(adj_at(a2, i, t) == adj_at(a0, i, t));
                }
            }
        }
        assert(adj_nodup(a2, n as int)) by {
            assert(forall|t: int| 0 <= t < la0.len() ==> #[trigger] la0[t] != b);
            assert(!adj_has(a0, b as int, a as int));
            assert(forall|t: int| 0 <= t < lb0.len() ==> adj_at(a0, b as int, t) != a as int);
            assert forall|i: int, t1: int, t2: int|
                0 <= i < n && 0 <= t1 < t2 < a2[i]@.len() implies #[trigger] adj_at(a2, i, t1)
                != #[trigger] adj_at(a2, i, t2) by {
                if i == a {
                    if t2 < la0.len() {
                        assert(adj_at(a2, i, t1) == adj_at(a0, i, t1));
                        assert(adj_at(a2, i, t2) == adj_at(a0, i, t2));
                    } else {
                        assert(adj_at(a2, i, t2) == b);
                        assert(a2[i]@[t1] == la0[t1]);
                        assert(adj_at(a2, i, t1) == la0[t1] as int);
                    }
                } else if i == b {
                    if t2 < lb0.len() {
                        assert(adj_at(a2, i, t1) == adj_at(a0, i, t1));
                        assert(adj_at(a2, i, t2) == adj_at(a0, i, t2));
                    } else {
                        assert(adj_at(a2, i, t2) == a);
                        assert(a2[i]@[t1] == lb0[t1]);
                        assert(adj_at(a2, i, t1) == adj_at(a0, i, t1));
                    }
                } else {
                    assert(a2[i] == a0[i]);
                    assert(adj_at(a2, i, t1) == adj_at(a0, i, t1));
                    assert(adj_at(a2, i, t2) == adj_at(a0, i, t2));
                }
            }
        }
        assert(adj_sym(a2, n as int)) by {
            assert forall|i: int, j: int|
                0 <= i < n && 0 <= j < n implies (#[trigger] adj_has(a2, i, j) <==> adj_has(
                a2,
                j,
                i,
            )) by {
                if adj_has(a2, i, j) {
                    if adj_has(a0, i, j) {
                        assert(adj_has(a0, j, i));
                    }
                }
                if adj_has(a2, j, i) {
                    if adj_has(a0, j, i) {
                        assert(adj_has(a0, i, j));
                    }
                }
            }
        }
        assert(adj_clear(a2, pts@, map.data@, n as int)) by {
            assert forall|i: int, j: int|
                0 <= i < n && 0 <= j < n && #[trigger] adj_has(a2, i, j) implies edge_clear(
                map.data@,
                pts@[i],
                pts@[j],
            ) by {
                if adj_has(a0, i, j) {
                } else if i == a && j == b {
                } else {
                    assert(i == b && j == a);
                    lemma_edge_clear_sym(map.data@, pts@[a as int], pts@[b as int]);
                }
            }
        }
        assert(edge_admissible(pts@, map.data@, a as int, b as int));
        assert forall|i: int, j: int| 0 <= i < n && 0 <= j < n implies (#[trigger] adj_has(
            a2,
            i,
            j,
        ) <==> (adj_has(a0, i, j) || (edge_admissible(pts@, map.data@, a as int, b as int) && ((i
            == a && j == b) || (i == b && j == a))))) by {}
    }
}

/// The five sample fractions are symmetric about the midpoint, so a
/// segment read in either direction probes the same five points.
proof fn lemma_edge_clear_sym(src: Seq<u32>, a: Point2, b: Point2)
    requires
        edge_clear(src, a, b),
    ensures
        edge_clear(src, b, a),
{
    assert forall|s: int|
        0 <= s < 5 implies #[trigger] obstruction_permille(
        src,
        true,
        lerp_coord(b.x as int, a.x as int, sample_frac(s)),
        lerp_coord(b.y as int, a.y as int, sample_frac(s)),
    ) <= 100 by {
        let m = 4 - s;
        assert(0 <= m < 5);
        assert(sample_frac(m) == 100 - sample_frac(s));
        assert(lerp_coord(b.x as int, a.x as int, sample_frac(s)) == lerp_coord(
            a.x as int,
            b.x as int,
            sample_frac(m),
        ));
        assert(lerp_coord(b.y as int, a.y as int, sample_frac(s)) == lerp_coord(
            a.y as int,
            b.y as int,
            sample_frac(m),
        ));
        assert(obstruction_permille(
            src,
            true,
            lerp_coord(a.x as int, b.x as int, sample_frac(m)),
            lerp_coord(a.y as int, b.y as int, sample_frac(m)),
        ) <= 100);
    }
}

/// Edge weight the distance matrix starts from: zero on the diagonal,
/// the rounded Euclidean length on recorded edges, the sentinel
/// elsewhere.
pub open spec fn init_weight(pts: Seq<Point2>, adjv: Seq<Vec<usize>>, i: int, j: int) -> int {
    if i == j {
        0
    } else if adj_has(adjv, i, j) {
        sqrt_floor(dist_sq(pts[i], pts[j]))
    } else {
        UNREACHED as int
    }
}

/// Cost of the route from waypoint `i` through the stops `p` to `j`,
/// each leg priced by the initial edge weights.
pub open spec fn edge_chain_cost(
    pts: Seq<Point2>,
    adjv: Seq<Vec<usize>>,
    i: int,
    p: Seq<int>,
    j: int,
) -> int
    decreases p.len(),
{
    if p.len() == 0 {
        init_weight(pts, adjv, i, j)
    } else {
        init_weight(pts, adjv, i, p[0]) + edge_chain_cost(
            pts,
            adjv,
            p[0],
            p.subrange(1, p.len() as int),
            j,
        )
    }
}

/// Entry (`i`, `j`) of the distance table equals the cost of some chain
/// of stops priced by the edge weights; with the triangle inequality and
/// the entry-wise bound by the edge weights this pins the table to the
/// actual shortest-path distances.
pub open spec fn distance_realized(
    pts: Seq<Point2>,
    adjv: Seq<Vec<usize>>,
    d: Seq<Vec<u64>>,
    n: int,
    i: int,
    j: int,
) -> bool {
    exists|p: Seq<int>|
        valid_chain(p, n) && #[trigger] edge_chain_cost(pts, adjv, i, p, j) == mat_at(d, i, j)
}

/// A chain priced by a matrix that agrees with the edge weights costs
/// the same priced by the edge weights.
proof fn lemma_chain_cost_matches(
    pts: Seq<Point2>,
    adjv: Seq<Vec<usize>>,
    d0: Seq<Vec<u64>>,
    n: int,
    i: int,
    p: Seq<int>,
    j: int,
)
    requires
        forall|x: int, y: int|
            0 <= x < n && 0 <= y < n ==> #[trigger] mat_at(d0, x, y) == init_weight(
                pts,
                adjv,
                x,
                y,
            ),
        valid_chain(p, n),
        0 <= i < n,
        0 <= j < n,
    ensures
        chain_cost(d0, i, p, j) == edge_chain_cost(pts, adjv, i, p, j),
    decreases p.len(),
{
    if p.len() > 0 {
        let tail = p.subrange(1, p.len() as int);
        assert(0 <= p[0] < n);
        assert forall|k: int| 0 <= k < tail.len() implies 0 <= #[trigger] tail[k] < n by {
            assert(tail[k] == p[k + 1]);
        }
        lemma_chain_cost_matches(pts, adjv, d0, n, p[0], tail, j);
    }
}

/// Builds the initial distance matrix from the recorded edges.
fn init_distances(pts: &Vec<Point2>, adj: &Vec<Vec<usize>>) -> (d: Vec<Vec<u64>>)
    requires
        forall|i: int| 0 <= i < pts@.len() ==> valid_pos(#[trigger] pts@[i]),
        adj_wf(adj@, pts@.len() as int),
        adj_sym(adj@, pts@.len() as int),
    ensures
        mat_wf(d@, pts@.len() as int),
        forall|i: int, j: int|
            0 <= i < pts@.len() && 0 <= j < pts@.len() ==> #[trigger] mat_at(d@, i, j)
                == init_weight(pts@, adj@, i, j),
        mat_bounded(d@, pts@.len() as int, UNREACHED as int),
        mat_symmetric(d@, pts@.len() as int),
        mat_zero_diag(d@, pts@.len() as int),
{
    let n = pts.len();
    let mut d: Vec<Vec<u64>> = Vec::new();
    let mut i: usize = 0;
    while i < n
        invariant
            n == pts@.len(),
            forall|k: int| 0 <= k < n ==> valid_pos(#[trigger] pts@[k]),
            adj_wf(adj@, n as int),
            i <= n,
            d@.len() == i,
            forall|a: int| 0 <= a < i ==> (#[trigger] d@[a])@.len() == n,
            forall|a: int, b: int|
                0 <= a < i && 0 <= b < n ==> #[trigger] mat_at(d@, a, b) == init_weight(
                    pts@,
                    adj@,
                    a,
                    b,
                ),
        decreases n - i,
    {
        let mut row: Vec<u64> = Vec::new();
        let mut j: usize = 0;
        while j < n
            invariant
                n == pts@.len(),
                forall|k: int| 0 <= k < n ==> valid_pos(#[trigger] pts@[k]),
                adj_wf(adj@, n as int),
                i < n,
                j <= n,
                row@.len() == j,
                forall|b: int|
                    0 <= b < j ==> #[trigger] row@[b] as int == init_weight(
                        pts@,
                        adj@,
                        i as int,
                        b,
                    ),
            decreases n - j,
        {
            let w: u64 = if i == j {
                0
            } else if vec_contains(&adj[i], j) {
                proof {
                    let t = choose|t: int| 0 <= t < adj@[i as int]@.len() && adj@[i as int]@[t]
                        == j;
                    assert(adj_at(adj@, i as int, t) == j);
                    assert(adj_has(adj@, i as int, j as int));
                }
                euclid_dist(pts[i], pts[j])
            } else {
                proof {
                    if adj_has(adj@, i as int, j as int) {
                        let t = choose|t: int|
                            0 <= t < adj@[i as int]@.len() && adj_at(adj@, i as int, t)
                                == j as int;
                        assert(adj@[i as int]@[t] == j);
                    }
                }
                UNREACHED
            };
            row.push(w);
            j = j + 1;
        }
        let ghost d0 = d@;
        d.push(row);
        proof {
            assert forall|a: int, b: int| 0 <= a < i + 1 && 0 <= b < n implies #[trigger] mat_at(
                d@,
                a,
                b,
            ) == init_weight(pts@, adj@, a, b) by {
                if a < i {
                    assert(d@[a] == d0[a]);
                    assert(mat_at(d0, a, b) == init_weight(pts@, adj@, a, b));
                } else {
                    assert(d@[a] == row);
                    assert(row@[b] as int == init_weight(pts@, adj@, i as int, b));
                }
            }
        }
        i = i + 1;
    }
    proof {
        assert forall|a: int, b: int| 0 <= a < n && 0 <= b < n implies #[trigger] mat_at(d@, a, b)
            == mat_at(d@, b, a) by {
            crate::geometry::lemma_dist_sq_sym(pts@[a], pts@[b]);
            assert(mat_at(d@, a, b) == init_weight(pts@, adj@, a, b));
            assert(mat_at(d@, b, a) == init_weight(pts@, adj@, b, a));
        }
        assert forall|a: int, b: int| 0 <= a < n && 0 <= b < n implies #[trigger] mat_at(d@, a, b)
            <= UNREACHED as int by {
            if a != b && adj_has(adj@, a, b) {
                crate::geometry::lemma_dist_sq_bound(pts@[a], pts@[b]);
                crate::geometry::lemma_sqrt_floor_small(dist_sq(pts@[a], pts@[b]));
                assert(mat_at(d@, a, b) == sqrt_floor(dist_sq(pts@[a], pts@[b])));
            }
        }
    }
    d
}

/// Cost of leaving `i` via the neighbor at position `t` of `lst`, bound
/// for `f`.
fn cost_at(lst: &Vec<usize>, d: &Vec<Vec<u64>>, i: usize, f: usize, t: usize, n: usize) -> (c: u64)
    requires
        mat_wf(d@, n as int),
        mat_bounded(d@, n as int, UNREACHED as int),
        i < n,
        f < n,
        t < lst@.len(),
        lst@[t as int] < n,
    ensures
        c as int == hop_cost_in(d@, i as int, lst@[t as int] as int, f as int),
{
    let via = lst[t];
    proof {
        assert(mat_at(d@, i as int, via as int) <= UNREACHED as int);
        assert(mat_at(d@, via as int, f as int) <= UNREACHED as int);
    }
    d[i][via] + d[via][f]
}

/// First position of a cheapest neighbor.
fn argmin_pos(lst: &Vec<usize>, d: &Vec<Vec<u64>>, i: usize, f: usize, n: usize) -> (b: usize)
    requires
        mat_wf(d@, n as int),
        mat_bounded(d@, n as int, UNREACHED as int),
        i < n,
        f < n,
        lst@.len() >= 1,
        forall|t: int| 0 <= t < lst@.len() ==> #[trigger] lst@[t] < n,
    ensures
        first_best_in(d@, lst@, i as int, f as int, b as int),
{
    let mut b: usize = 0;
    let mut t: usize = 1;
    while t < lst.len()
        invariant
            mat_wf(d@, n as int),
            mat_bounded(d@, n as int, UNREACHED as int),
            i < n,
            f < n,
            lst@.len() >= 1,
            forall|k: int| 0 <= k < lst@.len() ==> #[trigger] lst@[k] < n,
            b < t <= lst@.len(),
            forall|k: int|
                0 <= k < t ==> #[trigger] hop_cost_in(d@, i as int, lst@[k] as int, f as int)
                    >= hop_cost_in(d@, i as int, lst@[b as int] as int, f as int),
            forall|k: int|
                0 <= k < b ==> #[trigger] hop_cost_in(d@, i as int, lst@[k] as int, f as int)
                    > hop_cost_in(d@, i as int, lst@[b as int] as int, f as int),
        decreases lst@.len() - t,
    {
        let ct = cost_at(lst, d, i, f, t, n);
        let cb = cost_at(lst, d, i, f, b, n);
        if ct < cb {
            b = t;
        }
        t = t + 1;
    }
    b
}

/// First position of a cheapest neighbor other than position `skip`.
fn argmin_pos_except(lst: &Vec<usize>, d: &Vec<Vec<u64>>, i: usize, f: usize, n: usize, skip: usize) -> (s:
    usize)
    requires
        mat_wf(d@, n as int),
        mat_bounded(d@, n as int, UNREACHED as int),
        i < n,
        f < n,
        lst@.len() >= 2,
        skip < lst@.len(),
        forall|t: int| 0 <= t < lst@.len() ==> #[trigger] lst@[t] < n,
    ensures
        second_best_in(d@, lst@, i as int, f as int, skip as int, s as int),
{
    let mut s: usize = if skip == 0 {
        1
    } else {
        0
    };
    let mut t: usize = 0;
    while t < lst.len()
        invariant
            mat_wf(d@, n as int),
            mat_bounded(d@, n as int, UNREACHED as int),
            i < n,
            f < n,
            lst@.len() >= 2,
            skip < lst@.len(),
            forall|k: int| 0 <= k < lst@.len() ==> #[trigger] lst@[k] < n,
            t <= lst@.len(),
            s < lst@.len(),
            s != skip,
            forall|k: int|
                0 <= k < t && k != skip ==> #[trigger] hop_cost_in(
                    d@,
                    i as int,
                    lst@[k] as int,
                    f as int,
                ) >= hop_cost_in(d@, i as int, lst@[s as int] as int, f as int),
            forall|k: int|
                0 <= k < s && k != skip ==> #[trigger] hop_cost_in(
                    d@,
                    i as int,
                    lst@[k] as int,
                    f as int,
                ) > hop_cost_in(d@, i as int, lst@[s as int] as int, f as int),
        decreases lst@.len() - t,
    {
        if t != skip {
            let ct = cost_at(lst, d, i, f, t, n);
            let cs = cost_at(lst, d, i, f, s, n);
            if ct < cs {
                s = t;
            }
        }
        t = t + 1;
    }
    s
}

/// Builds the next-hop list for one ordered pair: nothing on the
/// diagonal or without neighbors, the lone neighbor at full weight, or
/// the two cheapest neighbors weighted 60/40.
fn hop_entries(lst: &Vec<usize>, d: &Vec<Vec<u64>>, i: usize, f: usize, n: usize) -> (e: Vec<
    (usize, u64),
>)
    requires
        mat_wf(d@, n as int),
        mat_bounded(d@, n as int, UNREACHED as int),
        i < n,
        f < n,
        forall|t: int| 0 <= t < lst@.len() ==> #[trigger] lst@[t] < n,
        forall|t1: int, t2: int| 0 <= t1 < t2 < lst@.len() ==> lst@[t1] != lst@[t2],
    ensures
        hop_entries_ok_in(d@, lst@, e@, i as int, f as int),
{
    let mut e: Vec<(usize, u64)> = Vec::new();
    if i == f || lst.len() == 0 {
        return e;
    }
    if lst.len() == 1 {
        e.push((lst[0], 100));
        return e;
    }
    let b = argmin_pos(lst, d, i, f, n);
    let s = argmin_pos_except(lst, d, i, f, n, b);
    proof {
        if b < s {
            assert(lst@[b as int] != lst@[s as int]);
        } else {
            assert(lst@[s as int] != lst@[b as int]);
        }
    }
    e.push((lst[b], 60));
    e.push((lst[s], 40));
    e
}

impl HiveGraph {
    /// Second build step: takes the planar triangulation of the sampled
    /// waypoints (flattened triangle index triples, plus the convex
    /// hull), prunes each candidate edge against the obstruction field,
    /// computes all-pairs distances and the next-hop table, and freezes
    /// the graph.  With fewer than three waypoints the graph fails
    /// permanently.  Does nothing unless waypoints were just sampled, so
    /// a finished build never changes again.
    pub fn finish_build(&mut self, map: &HiveMap, triangles: &Vec<usize>, hull: &Vec<usize>)
        requires
            old(self).wf(),
            map.wf(),
            old(self).state is Sampled ==> map.ready && map.data@ == old(self).source@,
        ensures
            final(self).wf(),
            !(old(self).state is Sampled) ==> *final(self) == *old(self),
            old(self).state is Sampled ==> {
                &&& final(self).points == old(self).points
                &&& final(self).source == old(self).source
                &&& (final(self).state is Ready <==> old(self).points@.len() >= 3)
                &&& (final(self).state is Failed <==> old(self).points@.len() < 3)
                &&& (final(self).state is Ready ==> final(self).hull@ == hull@)
                &&& (final(self).state is Ready ==> (forall|x: int, y: int|
                    0 <= x < final(self).n() && 0 <= y < final(self).n() ==> (#[trigger] adj_has(
                        final(self).adjacent_points@,
                        x,
                        y,
                    ) <==> edge_kept(
                        triangles@,
                        hull@,
                        final(self).points@,
                        final(self).source@,
                        x,
                        y,
                    ))))
                &&& (final(self).state is Ready ==> (forall|x: int, y: int|
                    0 <= x < final(self).n() && 0 <= y < final(self).n()
                        ==> #[trigger] mat_at(final(self).distances@, x, y) <= init_weight(
                        final(self).points@,
                        final(self).adjacent_points@,
                        x,
                        y,
                    )))
                &&& (final(self).state is Ready ==> (forall|x: int, y: int|
                    0 <= x < final(self).n() && 0 <= y < final(self).n()
                        ==> #[trigger] distance_realized(
                        final(self).points@,
                        final(self).adjacent_points@,
                        final(self).distances@,
                        final(self).n(),
                        x,
                        y,
                    )))
            },
    {
        match self.state {
            GraphState::Sampled => {},
            _ => { return ; },
        }
        let n = self.points.len();
        if n < 3 {
            self.state = GraphState::Failed;
            return ;
        }
        let mut adj: Vec<Vec<usize>> = Vec::new();
        let mut i: usize = 0;
        while i < n
            invariant
                i <= n,
                adj@.len() == i,
                forall|k: int| 0 <= k < i ==> (#[trigger] adj@[k])@.len() == 0,
            decreases n - i,
        {
            adj.push(Vec::new());
            i = i + 1;
        }
        proof {
            assert forall|k: int, t: int|
                0 <= k < n && 0 <= t < adj@[k]@.len() implies 0 <= #[trigger] adj_at(adj@, k, t)
                < n && adj_at(adj@, k, t) != k by {}
            assert forall|k: int, t1: int, t2: int|
                0 <= k < n && 0 <= t1 < t2 < adj@[k]@.len() implies #[trigger] adj_at(adj@, k, t1)
                != #[trigger] adj_at(adj@, k, t2) by {}
            assert forall|k: int, j: int| 0 <= k < n && 0 <= j < n implies (#[trigger] adj_has(
                adj@,
                k,
                j,
            ) <==> adj_has(adj@, j, k)) by {
                if adj_has(adj@, k, j) {
                    let t = choose|t: int| 0 <= t < adj@[k]@.len() && adj_at(adj@, k, t) == j;
                    assert(false);
                }
                if adj_has(adj@, j, k) {
                    let t = choose|t: int| 0 <= t < adj@[j]@.len() && adj_at(adj@, j, t) == k;
                    assert(false);
                }
            }
            assert forall|k: int, j: int|
                0 <= k < n && 0 <= j < n && #[trigger] adj_has(adj@, k, j) implies edge_clear(
                map.data@,
                self.points@[k],
                self.points@[j],
            ) by {
                let t = choose|t: int| 0 <= t < adj@[k]@.len() && adj_at(adj@, k, t) == j;
                assert(false);
            }
            assert forall|x: int, y: int| 0 <= x < n && 0 <= y < n implies (#[trigger] adj_has(
                adj@,
                x,
                y,
            ) <==> edge_kept_upto(
                triangles@,
                hull@,
                self.points@,
                map.data@,
                x,
                y,
                0,
                0,
            )) by {
                if adj_has(adj@, x, y) {
                    let t = choose|t: int| 0 <= t < adj@[x]@.len() && adj_at(adj@, x, t) == y;
                    assert(false);
                }
                if edge_kept_upto(triangles@, hull@, self.points@, map.data@, x, y, 0, 0) {
                    assert(!tri_candidate(triangles@, x, y, 0));
                    assert(!tri_candidate(triangles@, y, x, 0));
                    assert(!hull_candidate(hull@, x, y, 0));
                    assert(!hull_candidate(hull@, y, x, 0));
                }
            }
        }
        let mut ti: usize = 0;
        while triangles.len() >= 3 && ti <= triangles.len() - 3
            invariant
                map.wf(),
                map.ready,
                n == self.points@.len(),
                forall|k: int| 0 <= k < n ==> valid_pos(#[trigger] self.points@[k]),
                adj_ok(adj@, self.points@, map.data@),
                adj@.len() == n,
                ti <= triangles@.len(),
                ti % 3 == 0,
                forall|x: int, y: int|
                    0 <= x < n && 0 <= y < n ==> (#[trigger] adj_has(adj@, x, y)
                        <==> edge_kept_upto(
                        triangles@,
                        hull@,
                        self.points@,
                        map.data@,
                        x,
                        y,
                        ti as int,
                        0,
                    )),
            decreases triangles@.len() - ti,
        {
            let ghost adj0 = adj@;
            let a = triangles[ti];
            let b = triangles[ti + 1];
            let c = triangles[ti + 2];
            try_add_edge(&mut adj, map, &self.points, a, b);
            let ghost adj1 = adj@;
            try_add_edge(&mut adj, map, &self.points, b, c);
            let ghost adj2 = adj@;
            try_add_edge(&mut adj, map, &self.points, c, a);
            proof {
                lemma_triple_step(
                    triangles@,
                    hull@,
                    self.points@,
                    map.data@,
                    adj0,
                    adj1,
                    adj2,
                    adj@,
                    ti as int,
                    a as int,
                    b as int,
                    c as int,
                );
            }
            ti = ti + 3;
        }
        proof {
            assert forall|x: int, y: int| 0 <= x < n && 0 <= y < n implies (#[trigger] adj_has(
                adj@,
                x,
                y,
            ) <==> edge_kept_upto(
                triangles@,
                hull@,
                self.points@,
                map.data@,
                x,
                y,
                triangles@.len() as int,
                0,
            )) by {
                lemma_tri_limit_settled(
                    triangles@,
                    hull@,
                    self.points@,
                    map.data@,
                    x,
                    y,
                    ti as int,
                );
            }
        }
        let mut hi: usize = 0;
        while hi < hull.len()
            invariant
                map.wf(),
                map.ready,
                n == self.points@.len(),
                forall|k: int| 0 <= k < n ==> valid_pos(#[trigger] self.points@[k]),
                adj_ok(adj@, self.points@, map.data@),
                adj@.len() == n,
                hi <= hull@.len(),
                forall|x: int, y: int|
                    0 <= x < n && 0 <= y < n ==> (#[trigger] adj_has(adj@, x, y)
                        <==> edge_kept_upto(
                        triangles@,
                        hull@,
                        self.points@,
                        map.data@,
                        x,
                        y,
                        triangles@.len() as int,
                        hi as int,
                    )),
            decreases hull@.len() - hi,
        {
            let ghost adj0 = adj@;
            let a = hull[hi];
            let b = if hi == 0 {
                hull[hull.len() - 1]
            } else {
                hull[hi - 1]
            };
            try_add_edge(&mut adj, map, &self.points, a, b);
            proof {
                lemma_hull_step(
                    triangles@,
                    hull@,
                    self.points@,
                    map.data@,
                    adj0,
                    adj@,
                    hi as int,
                    a as int,
                    b as int,
                );
            }
            hi = hi + 1;
        }
        let d0 = init_distances(&self.points, &adj);
        let ghost d00 = d0@;
        let d = stabilize_distances(d0, n);
        proof {
            assert forall|x: int, y: int|
                0 <= x < n && 0 <= y < n implies #[trigger] distance_realized(
                self.points@,
                adj@,
                d@,
                n as int,
                x,
                y,
            ) by {
                assert(entry_realized(d@, d00, n as int, x, y));
                let p = choose|p: Seq<int>|
                    valid_chain(p, n as int) && #[trigger] chain_cost(d00, x, p, y) == mat_at(
                        d@,
                        x,
                        y,
                    );
                lemma_chain_cost_matches(self.points@, adj@, d00, n as int, x, p, y);
            }
        }
        let mut table: Vec<Vec<Vec<(usize, u64)>>> = Vec::new();
        let mut i: usize = 0;
        while i < n
            invariant
                n == self.points@.len(),
                mat_wf(d@, n as int),
                mat_bounded(d@, n as int, UNREACHED as int),
                adj_wf(adj@, n as int),
                adj_nodup(adj@, n as int),
                adj@.len() == n,
                i <= n,
                table@.len() == i,
                forall|a: int| 0 <= a < i ==> (#[trigger] table@[a])@.len() == n,
                forall|a: int, b: int|
                    0 <= a < i && 0 <= b < n ==> #[trigger] hop_entries_ok_in(
                        d@,
                        adj@[a]@,
                        table@[a]@[b]@,
                        a,
                        b,
                    ),
            decreases n - i,
        {
            let mut row: Vec<Vec<(usize, u64)>> = Vec::new();
            let mut f: usize = 0;
            while f < n
                invariant
                    n == self.points@.len(),
                    mat_wf(d@, n as int),
                    mat_bounded(d@, n as int, UNREACHED as int),
                    adj_wf(adj@, n as int),
                    adj_nodup(adj@, n as int),
                    adj@.len() == n,
                    i < n,
                    f <= n,
                    row@.len() == f,
                    forall|b: int|
                        0 <= b < f ==> #[trigger] hop_entries_ok_in(
                            d@,
                            adj@[i as int]@,
                            row@[b]@,
                            i as int,
                            b,
                        ),
                decreases n - f,
            {
                proof {
                    assert forall|t: int|
                        0 <= t < adj@[i as int]@.len() implies #[trigger] adj@[i as int]@[t]
                        < n by {
                        assert(adj_at(adj@, i as int, t) < n);
                    }
                    assert forall|t1: int, t2: int|
                        0 <= t1 < t2 < adj@[i as int]@.len() implies adj@[i as int]@[t1] != adj@[i
                        as int]@[t2] by {
                        assert(adj_at(adj@, i as int, t1) != adj_at(adj@, i as int, t2));
                    }
                }
                let entries = hop_entries(&adj[i], &d, i, f, n);
                row.push(entries);
                f = f + 1;
            }
            let ghost t0 = table@;
            table.push(row);
            proof {
                assert forall|a: int, b: int|
                    0 <= a < i + 1 && 0 <= b < n implies #[trigger] hop_entries_ok_in(
                    d@,
                    adj@[a]@,
                    table@[a]@[b]@,
                    a,
                    b,
                ) by {
                    if a < i {
                        assert(table@[a] == t0[a]);
                        assert(hop_entries_ok_in(d@, adj@[a]@, t0[a]@[b]@, a, b));
                    } else {
                        assert(table@[a] == row);
                        assert(hop_entries_ok_in(d@, adj@[i as int]@, row@[b]@, i as int, b));
                    }
                }
            }
            i = i + 1;
        }
        let mut hl: Vec<usize> = Vec::new();
        let mut hi: usize = 0;
        while hi < hull.len()
            invariant
                hi <= hull@.len(),
                hl@ == hull@.take(hi as int),
            decreases hull@.len() - hi,
        {
            hl.push(hull[hi]);
            proof {
                assert(hl@ =~= hull@.take(hi + 1));
            }
            hi = hi + 1;
        }
        self.adjacent_points = adj;
        self.distances = d;
        self.next_points = table;
        self.hull = hl;
        self.state = GraphState::Ready;
        proof {
            assert(hull@.take(hull@.len() as int) =~= hull@);
        }
    }

    /// Index of the waypoint nearest to `p`, scanning in order and
    /// keeping the first of any tie.
    pub fn get_nearest(&self, p: Point2) -> (r: usize)
        requires
            self.wf(),
            self.spec_ready(),
            valid_pos(p),
        ensures
            r < self.n(),
            r as int == nearest_in(self.points@, p, self.n()),
            forall|t: int|
                0 <= t < self.n() ==> dist_sq(self.points@[r as int], p) <= dist_sq(
                    #[trigger] self.points@[t],
                    p,
                ),
    {
        let mut nearest: usize = 0;
        let mut i: usize = 1;
        while i < self.points.len()
            invariant
                self.spec_ready(),
                self.wf(),
                valid_pos(p),
                1 <= i <= self.n(),
                nearest < i,
                nearest as int == nearest_in(self.points@, p, i as int),
                forall|t: int|
                    0 <= t < i ==> dist_sq(self.points@[nearest as int], p) <= dist_sq(
                        #[trigger] self.points@[t],
                        p,
                    ),
            decreases self.n() - i,
        {
            let di = dist_sq_exec(self.points[i], p);
            let db = dist_sq_exec(self.points[nearest], p);
            if di < db {
                nearest = i;
            }
            i = i + 1;
        }
        nearest
    }

    /// The next waypoint to steer toward when standing at `from` and
    /// heading for `to`: a weighted choice among the precomputed hop
    /// entries, decided entirely by `seed`, so one seed always yields one
    /// hop.  An empty entry list yields waypoint 0.
    pub fn get_next(&self, from: usize, to: usize, seed: u64) -> (r: usize)
        requires
            self.wf(),
            self.spec_ready(),
            from < self.n(),
            to < self.n(),
        ensures
            r as int == pick_weighted(
                self.next_points@[from as int]@[to as int]@,
                seeded_roll(seed) as int,
            ),
            r < self.n(),
    {
        let roll = roll_percent(seed);
        let entries: &Vec<(usize, u64)> = &self.next_points[from][to];
        proof {
            assert(self.hop_entries_ok(from as int, to as int));
        }
        if entries.len() == 0 {
            return 0;
        }
        let (i0, w0) = entries[0];
        proof {
            lemma_hop_entry_indices(self, from as int, to as int);
        }
        if roll < w0 {
            return i0;
        }
        let ghost e = self.next_points@[from as int]@[to as int]@;
        let ghost tail = e.subrange(1, e.len() as int);
        proof {
            assert(e[0] == (i0, w0));
            assert(pick_weighted(e, roll as int) == pick_weighted(tail, roll - w0));
        }
        if entries.len() >= 2 {
            let (i1, w1) = entries[1];
            proof {
                assert(tail[0] == e[1]);
                assert(tail.len() >= 1);
            }
            if roll - w0 < w1 {
                return i1;
            }
            proof {
                let ghost tail2 = tail.subrange(1, tail.len() as int);
                assert(pick_weighted(tail, roll - w0) == pick_weighted(
                    tail2,
                    roll - w0 - tail[0].1,
                ));
                assert(tail2.len() == 0);
                assert(pick_weighted(tail2, roll - w0 - tail[0].1) == 0);
            }
            return 0;
        }
        proof {
            assert(tail.len() == 0);
            assert(pick_weighted(tail, roll - w0) == 0);
        }
        0
    }
}

/// Index of the first waypoint among the first `k` that is nearest to
/// `p`.
pub open spec fn nearest_in(pts: Seq<Point2>, p: Point2, k: int) -> int
    decreases k,
{
    if k <= 1 {
        0
    } else {
        let prev = nearest_in(pts, p, k - 1);
        if dist_sq(pts[k - 1], p) < dist_sq(pts[prev], p) {
            k - 1
        } else {
            prev
        }
    }
}

/// Walks the weighted entries: takes the first whose cumulative weight
/// exceeds the roll, or waypoint 0 past the end.
pub open spec fn pick_weighted(e: Seq<(usize, u64)>, roll: int) -> int
    decreases e.len(),
{
    if e.len() == 0 {
        0
    } else if roll < e[0].1 {
        e[0].0 as int
    } else {
        pick_weighted(e.subrange(1, e.len() as int), roll - e[0].1)
    }
}

/// Sampling never seeds a waypoint on obstructed ground: against the
/// field it was built from, every waypoint of a ready graph reads zero
/// obstruction, in particular below the prune threshold.
pub proof fn lemma_waypoints_unobstructed(g: &HiveGraph, m: &HiveMap)
    requires
        g.wf(),
        g.spec_ready(),
        m.ready,
        m.data@ == g.source@,
    ensures
        forall|i: int|
            0 <= i < g.n() ==> m.obstruction_at(
                (#[trigger] g.points@[i]).x as int,
                g.points@[i].y as int,
            ) == 0,
        forall|i: int|
            0 <= i < g.n() ==> m.obstruction_at(
                (#[trigger] g.points@[i]).x as int,
                g.points@[i].y as int,
            ) < PRUNE_THRESHOLD_PERMILLE,
{
    assert forall|i: int| 0 <= i < g.n() implies m.obstruction_at(
        (#[trigger] g.points@[i]).x as int,
        g.points@[i].y as int,
    ) == 0 by {
        assert(waypoint_ok(g.source@, g.points@[i]));
    }
}

/// The pruning rule, read back: every adjacency edge of a ready graph,
/// sampled at the five interior fractions, reports obstruction at or
/// below the prune threshold against the field it was built from.
pub proof fn lemma_edges_clear(g: &HiveGraph, m: &HiveMap)
    requires
        g.wf(),
        g.spec_ready(),
        m.ready,
        m.data@ == g.source@,
    ensures
        forall|i: int, j: int|
            0 <= i < g.n() && 0 <= j < g.n() && #[trigger] adj_has(g.adjacent_points@, i, j)
                ==> edge_clear(m.data@, g.points@[i], g.points@[j]),
        forall|i: int, j: int, s: int|
            0 <= i < g.n() && 0 <= j < g.n() && adj_has(g.adjacent_points@, i, j) && 0 <= s < 5
                ==> #[trigger] m.obstruction_at(
                lerp_coord(g.points@[i].x as int, g.points@[j].x as int, sample_frac(s)),
                lerp_coord(g.points@[i].y as int, g.points@[j].y as int, sample_frac(s)),
            ) <= PRUNE_THRESHOLD_PERMILLE,
{
    assert forall|i: int, j: int, s: int|
        0 <= i < g.n() && 0 <= j < g.n() && adj_has(g.adjacent_points@, i, j) && 0 <= s
            < 5 implies #[trigger] m.obstruction_at(
        lerp_coord(g.points@[i].x as int, g.points@[j].x as int, sample_frac(s)),
        lerp_coord(g.points@[i].y as int, g.points@[j].y as int, sample_frac(s)),
    ) <= PRUNE_THRESHOLD_PERMILLE by {
        assert(edge_clear(g.source@, g.points@[i], g.points@[j]));
        assert(obstruction_permille(
            g.source@,
            true,
            lerp_coord(g.points@[i].x as int, g.points@[j].x as int, sample_frac(s)),
            lerp_coord(g.points@[i].y as int, g.points@[j].y as int, sample_frac(s)),
        ) <= 100);
    }
}

/// The shortest-path table of a ready graph is a symmetric premetric:
/// zero on the diagonal, the same in both directions, and never longer
/// than a detour through any third waypoint.  Each entry is moreover
/// realized by an actual chain of edge weights, so together with the
/// triangle inequality the table holds exactly the shortest chain costs.
pub proof fn lemma_distances_metric(g: &HiveGraph)
    requires
        g.wf(),
        g.spec_ready(),
    ensures
        forall|i: int, j: int|
            0 <= i < g.n() && 0 <= j < g.n() ==> #[trigger] mat_at(g.distances@, i, j) == mat_at(
                g.distances@,
                j,
                i,
            ),
        forall|i: int| 0 <= i < g.n() ==> #[trigger] mat_at(g.distances@, i, i) == 0,
        forall|i: int, j: int, k: int|
            0 <= i < g.n() && 0 <= j < g.n() && 0 <= k < g.n() ==> mat_at(g.distances@, i, j)
                <= #[trigger] mat_at(g.distances@, i, k) + #[trigger] mat_at(g.distances@, k, j),
        forall|i: int, j: int|
            0 <= i < g.n() && 0 <= j < g.n() ==> #[trigger] distance_realized(
                g.points@,
                g.adjacent_points@,
                g.distances@,
                g.n(),
                i,
                j,
            ),
{
}

/// In a ready graph every next-hop entry names a real neighbor, so its
/// index is in range.
proof fn lemma_hop_entry_indices(g: &HiveGraph, i: int, f: int)
    requires
        g.wf(),
        g.spec_ready(),
        0 <= i < g.n(),
        0 <= f < g.n(),
    ensures
        forall|k: int|
            0 <= k < g.next_points@[i]@[f]@.len() ==> 0 <= #[trigger] g.next_points@[i]@[f]@[k].0
                < g.n(),
{
    let e = g.next_points@[i]@[f]@;
    let lst = g.adjacent_points@[i]@;
    assert(g.hop_entries_ok(i, f));
    assert forall|k: int| 0 <= k < e.len() implies 0 <= #[trigger] e[k].0 < g.n() by {
        if i == f || lst.len() == 0 {
        } else if lst.len() == 1 {
            assert(e[0].0 == lst[0]);
            assert(adj_at(g.adjacent_points@, i, 0) < g.n());
        } else {
            let (b, s) = choose|b: int, s: int|
                #[trigger] first_best_in(g.distances@, lst, i, f, b) && #[trigger] second_best_in(
                    g.distances@,
                    lst,
                    i,
                    f,
                    b,
                    s,
                ) && e[0].0 == lst[b] && e[1].0 == lst[s];
            assert(adj_at(g.adjacent_points@, i, b) < g.n());
            assert(adj_at(g.adjacent_points@, i, s) < g.n());
        }
    }
}

} // verus!

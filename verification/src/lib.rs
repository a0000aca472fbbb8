//! Navigation core for a partially obstructed, bounded 2-D arena.
//!
//! The library has three layers, built bottom-up:
//! - an obstruction field rasterized from an RGBA image ([`hive_map`]),
//! - a waypoint routing graph with obstacle-aware edges and precomputed
//!   shortest-path / next-hop tables ([`hive_graph`]),
//! - a per-agent path-following state machine run every tick ([`navigation`]).
//!
//! World positions are fixed-point integers: one world unit is 1000
//! milli-units, so every geometric test is exact integer arithmetic.

pub mod app_state;
pub mod apsp;
pub mod direction;
pub mod geometry;
pub mod hive_graph;
pub mod hive_map;
pub mod navigation;
pub mod rng;

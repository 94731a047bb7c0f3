//! Optimal pathfinding on 8-connected grid maps.
//!
//! - Search substrate: nodes with fields declared at run time ([`node`]), node pools
//!   ([`pool`]), a decrease-key heap ([`pqueue`]) and a bucket queue ([`bucket_queue`]).
//! - Grid maps as bits ([`bitgrid`]), dense per-cell storage ([`grid`]) and directions
//!   ([`direction`]).
//! - Jump point search: the canonical-successor rule ([`canonical`]), the jump database
//!   ([`jump_db`]), the online block scan that finds the same jumps from the map's bits
//!   ([`online_jump`]), and expanders for plain 8-connected search, canonical single steps,
//!   JPS+ and JPS+ pruned by bounding boxes ([`eight_connected`], [`canonical_expander`],
//!   [`jps_plus`], [`jps_bb`]).
//! - Compressed path databases: rows of runs in Eytzinger order ([`cpd`]), first-move
//!   tie-breaking ([`tiebreak`]), the independent jump points that hold oracles
//!   ([`jump_points`]) and partial-cell bounding boxes ([`bb`]).
use vstd::prelude::*;

pub mod bb;
pub mod bitgrid;
pub mod bucket_queue;
pub mod canonical;
pub mod canonical_expander;
pub mod cpd;
pub mod direction;
pub mod eight_connected;
pub mod grid;
pub mod jps_bb;
pub mod jps_plus;
pub mod jump_db;
pub mod jump_points;
pub mod node;
pub mod online_jump;
pub mod pool;
pub mod pqueue;
pub mod traits;
pub mod tiebreak;
pub mod topping;

verus! {

} // verus!

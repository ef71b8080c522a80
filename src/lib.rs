//! Procedural generation of two-dimensional dungeon maps: rectangular rooms
//! scattered over a square grid, joined by corridors that follow a minimum
//! spanning tree over the room centroids, plus optional extra loops.

use vstd::prelude::*;

pub mod cell;
pub mod corridor;
pub mod graph;
pub mod placer;
pub mod random;
pub mod reach;

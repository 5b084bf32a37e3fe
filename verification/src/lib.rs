//! Shortest paths on a grid of walkable and blocked cells.
//!
//! A [`Pathfinding`] map records which cells of a rectangle are blocked.
//! [`Pathfinding::find_path`] runs an A* search over it, in which a move
//! along an edge costs 1 and a move across a corner costs 2, and returns a
//! cheapest path between two cells, or no cells when there is none.

pub mod astar;
pub mod cell;
pub mod frontier;
pub mod grid;
pub mod laws;
pub mod neighbors;
pub mod path;
pub mod search;
pub mod search_proofs;
pub mod tally;

pub use crate::grid::Pathfinding;

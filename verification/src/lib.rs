//! Rule engine for a turn-based topological pencil game: two players
//! alternately connect eligible spots on an evolving multigraph, each
//! connection inserting a fresh midpoint spot, until no legal connection
//! remains anywhere on the board.
//!
//! The engine owns the board model and the turn logic — move legality, graph
//! mutation, cycle enumeration and the enclosure-based termination check.
//! Rendering, input handling and the geometry of node positions belong to the
//! embedding view, which supplies the two geometric predicates the
//! termination check calls back into.

pub mod game;
pub mod graph;

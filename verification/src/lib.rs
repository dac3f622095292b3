//! A graph/tree library built on a handle-addressed arena: one growable
//! buffer of fixed-width words holds, for every node, a fixed header followed
//! by a reserved run of neighbor slots. Handles are stable word offsets.
pub mod graph;
pub mod utils;
pub mod views;

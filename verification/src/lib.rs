//! Composition of binary components by plugging the exports of "plug"
//! components into the unsatisfied imports of a "socket" component.
//!
//! The crate models packages as named import/export signatures, builds a
//! composition graph of package and instance nodes, and resolves which plug
//! export satisfies which socket import by exact name and a structural
//! subtype oracle.  The resolved graph is then realized and encoded through
//! the `wac-graph` crate.

pub mod error;
pub mod sig;
pub mod graph;
pub mod naming;
pub mod resolver;
pub mod ext;
pub mod compose;

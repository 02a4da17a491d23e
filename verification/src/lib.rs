//! A relation-based access control engine.
//!
//! Relation tuples are held as a directed graph over identifiers. The graph
//! answers direct lookups, transitive checks with wildcard semantics and
//! reverse expansion, and can be written to and read from a textual snapshot.

pub mod bimap;
pub mod check;
pub mod expand;
pub mod format;
pub mod graph;
pub mod graph_file;
pub mod ident;
pub mod index;
pub mod laws;
pub mod model;
pub mod node;
pub mod order;
pub mod related;
pub mod relation_graph;
pub mod roundtrip;
pub mod savefile;
pub mod search;
pub mod service;
pub mod table;
pub mod text;

pub use crate::ident::Object;
pub use crate::ident::ObjectOrSet;
pub use crate::ident::RSet;
pub use crate::ident::WILDCARD_ID;
pub use crate::relation_graph::RelationGraph;

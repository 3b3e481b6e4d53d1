//! Call-graph construction and data-access reachability.
//!
//! - `types`: what per-language extraction reports about a file.
//! - `graph`: the call graph, and what it means for one function to reach
//!   another along resolved calls.
//! - `builder`: resolves call sites to function ids and classifies entry
//!   points and data accessors.
//! - `traversal`: breadth-first traversal that records shortest call depths.
//! - `forward`: every data access reachable from a function.
//! - `inverse`: every entry point that can reach an access to a table.
//! - `store`: a snapshot of a built graph, written in batches and queried by
//!   point lookups; `codec`: its stored form.
use vstd::prelude::*;

pub mod builder;
pub mod codec;
pub mod forward;
pub mod graph;
pub mod inverse;
pub mod store;
pub mod traversal;
pub mod types;

verus! {

} // verus!

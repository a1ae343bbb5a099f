//! An incremental, spatially indexed generation-and-cache engine.
//!
//! Independent *layers* (producers) generate rectangular *chunks* of data on
//! demand.  A layer may depend on other layers' chunks, with a spatial
//! padding, to compute its own output.  Generated chunks are retained only
//! while demanded and are evicted otherwise.  Each tick, demand from external
//! clients cascades through the dependency graph in topological order, and
//! chunks are generated in reverse topological order.

pub mod bounds;
pub mod usage;
pub mod layer_id;
pub mod layer_client;
pub mod graph;
pub mod layer;
pub mod layer_manager;

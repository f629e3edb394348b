//! PackMind: content normalization and addressing, the code-graph data model,
//! incremental-invalidation planning, token-budgeted context-pack selection,
//! cache-stable ordering and rendering.

use vstd::prelude::*;

pub mod candidates;
pub mod clock;
pub mod edges;
pub mod hash;
pub mod hotset;
pub mod index;
pub mod langs;
pub mod markdown;
pub mod model;
pub mod norm;
pub mod pack;
pub mod plan;
pub mod plugin;
pub mod profile;
pub mod render;
pub mod search;
pub mod report;
pub mod review;
pub mod route;
pub mod store;
pub mod summary;
pub mod syntax;
pub mod text;
pub mod tokens;
pub mod walk;
pub mod walk_graph;

verus! {

/// Version string baked into every content hash preimage.
pub const NORM_VERSION: &'static str = "PG-NORM-1";

/// Envelope format version for rendered context items.
pub const ENVELOPE_VERSION: &'static str = "PG-ENV-1";

/// Schema version of the index database.
pub const SCHEMA_VERSION: i64 = 1;

/// Name of the state directory created at the repo root.
pub const STATE_DIR: &'static str = ".prefixgraph";

/// File name of the index database inside the state directory.
pub const DB_FILE: &'static str = "index.db";

} // verus!

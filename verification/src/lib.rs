//! Final stage of a bucketed hash aggregation.
//!
//! Partially aggregated chunks arrive tagged with a bucket id. A collector
//! sorts them by bucket and merges them, one hash table and one state arena
//! per bucket, into fully reduced chunks.

pub mod area;
pub mod bucket;
pub mod chunk;
pub mod collector;
pub mod error;
pub mod function;
pub mod hashtable;
pub mod laws;
pub mod layout;
pub mod method;
pub mod model;
pub mod params;
pub mod partition;
pub mod sum;
pub mod wipe;

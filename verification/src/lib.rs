//! A hierarchical, in-memory record store: a forest of typed nodes
//! (providers, models, versions, prompts, settings) with CRUD operations and
//! the line-indexed, overlap-inclusive substring machinery of its search.
//!
//! Persistence and locking live outside this crate: callers hold the store
//! behind their own lock and write the forest out after each mutation.

pub mod models;
pub mod text;
pub mod store;
pub mod search;

//! A library for markdown knowledge bases: document indexing, frontmatter
//! queries, search result ranking, vault digests and health reports, and the
//! bookkeeping of the per-collection search stores.

pub mod config;
pub mod hash_index;
pub mod order;
pub mod text;
pub mod types;
pub mod store;
pub mod write;
pub mod yaml;
pub mod index;
pub mod dates;
pub mod format;
pub mod query;
pub mod search;
pub mod group;
pub mod digest;
pub mod health;
pub mod export;
pub mod notes;
pub mod paths;
pub mod params;

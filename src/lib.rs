//! Mirror of a package registry's bulk export, with diff-based ingestion, a
//! derived snapshot cache, and relevance/popularity ranked search.
//!
//! - `calendar`: dates packed into sortable integers.
//! - `export`, `dump`: reading an export's tables and diffing them against
//!   the store into a plan of changes.
//! - `committer`, `resolver`: the decisions of the ingestion cycle.
//! - `schema`: the stored records and the store's views.
//! - `cache`: the snapshot that queries read.
//! - `score`, `ranking`, `search`: text relevance, the bounded result list,
//!   and queries.

pub mod cache;
pub mod calendar;
pub mod committer;
pub mod dump;
pub mod export;
pub mod ranking;
pub mod resolver;
pub mod schema;
pub mod score;
pub mod search;
pub mod text;

//! Calendar feed pipeline: parses occurrence blocks out of text feeds,
//! resolves local timestamps against the Berlin timezone, groups and
//! deduplicates the resulting events per series, renders stable JSON
//! snapshots, and plans which persisted files must change.

pub mod additionals;
pub mod datetime;
pub mod event_entry;
pub mod grouping;
pub mod ics_to_json;
pub mod json;
pub mod repo;
pub mod snapshot;
pub mod text;

//! Search and analysis over line-delimited JSON conversation logs.
//!
//! A corpus is a set of session files, one conversation per file, grouped by
//! project. Each line of a session file is one record: a user, assistant or
//! system message built from content blocks, or a non-message event. The
//! library parses records, matches them against plain or regex queries,
//! applies a filter chain, and reduces the hits into enumerations, per-project
//! counts, summaries and frequency tables.

pub mod corpus;
pub mod errors;
pub mod freq;
pub mod jsontext;
pub mod matcher;
pub mod parse;
pub mod models;
pub mod numfmt;
pub mod pattern;
pub mod reduce;
pub mod relay;
pub mod render;
pub mod search;
pub mod sessions;
pub mod stats;
pub mod tally;
pub mod textops;

//! A semantic code linter's library: configuration checks, rule files, file
//! selection, the questions put to the Jev service and the reading of its
//! answers, cache bookkeeping, violations and their line regions, the text
//! report, and watch-mode snapshots.

pub mod float_bits;
pub mod engine;
pub mod text;
pub mod order;
pub mod sorted_map;
pub mod hash;
pub mod cache_key;
pub mod path;
pub mod rule;
pub mod config;
pub mod files;
pub mod jev;
pub mod precondition;
pub mod watch;
pub mod report;

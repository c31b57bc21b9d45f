//! Resolution of named secret records into environment lines: the dotenv
//! codec and its round-trip law, single-pass variable expansion, merging of
//! several items' lines, in-place env-file merging and its idempotence,
//! title resolution against the directory listing, cache keys and
//! freshness, and the sanitising and set-up decisions behind traces.

pub mod text;
pub mod dotenv;
pub mod reparse;
pub mod expand;
pub mod merge;
pub mod env_file;
pub mod items;
pub mod resolve;
pub mod cache;
pub mod trace;
pub mod telemetry;
pub mod write_laws;

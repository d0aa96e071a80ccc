//! quine: a personal knowledge graph built from files.
//!
//! The library holds the verified logic: the link, region and frontmatter
//! extractors, the path model, the walker's decisions, the walk diff, and
//! what the collect pipeline extracts, writes and reports. The command
//! line, the file system and the SQLite store are the program's, around it.

pub mod collect;
pub mod db;
pub mod errors;
pub mod extract;
pub mod init;
pub mod paths;
pub mod text;
pub mod types;
pub mod walk;

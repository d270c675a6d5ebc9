//! Finding and removing duplicate files.
//!
//! Paths are texts with `/` between the names. What has to be asked of the disk
//! is asked by the application around this library, which hands the answers in.

// Groundwork.
pub mod text;
pub mod paths;
pub mod names;
pub mod counting;

// The results and their marks.
pub mod model;
pub mod marks;
pub mod tree;
pub mod counts;
pub mod model_laws;

// Rules and exclusions.
pub mod globs;
pub mod rules;
pub mod runs;
pub mod rule_laws;
pub mod hiding;
pub mod fresh_laws;
pub mod mark_laws;

// The search.
pub mod contents;
pub mod roots;
pub mod path_laws;
pub mod buckets;
pub mod scanner;
pub mod search_laws;
pub mod scan_laws;

// The deletion.
pub mod deletion;
pub mod list_laws;
pub mod removal;
pub mod deed_laws;

// What is shown, and what is done upon the user's wishes.
pub mod preview;
pub mod dump_laws;
pub mod views;
pub mod state_laws;
pub mod session;
pub mod intake;
pub mod intake_laws;
pub mod wish_laws;
pub mod list_parts;
pub mod shape_laws;

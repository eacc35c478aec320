//! Condensed, human-scannable summaries of diff, find and grep output.
//!
//! Every function here is pure: it takes text and limits, and returns the
//! lines to show. Reading files, running search tools and printing are left
//! to the caller.

pub mod text;
pub mod order;
pub mod group;

pub mod diff_cmd;
pub mod find_cmd;
pub mod grep_cmd;

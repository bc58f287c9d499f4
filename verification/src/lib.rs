//! ccd: typo- and abbreviation-tolerant directory jumping.
//!
//! The verified core of the tool: edit distances, shell-history parsing,
//! path helpers, the frecency database's text format, and argument handling.

pub mod matcher;
pub mod text;
pub mod history;
pub mod paths;
pub mod seeding;
pub mod order;
pub mod store;
pub mod cli;

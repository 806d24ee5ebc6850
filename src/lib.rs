//! A tag-based file index: files carry sets of typed tag sequences, and
//! queries over those sequences select, prune or extend entries.

pub mod database;
pub mod file;
pub mod order;
pub mod query;
pub mod tags;
pub mod text;

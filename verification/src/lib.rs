//! A personal task list: an ordered sequence of text items with creation
//! timestamps, persisted as a JSON array in a single file.
//!
//! The store operations (`add`, `edit`, `remove`, `list`) and the exact
//! serialized form of the persisted file are verified; reading and writing
//! the file itself, and rendering the table, are left to the caller.

pub mod json;
pub mod task;
pub mod todo;

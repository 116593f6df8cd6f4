//! A small task-tracking library: tasks with optional categories and due
//! dates, kept in an embedded SQLite store.
//!
//! The core is the due-date normalizer in [`date`]: it resolves loosely
//! written date expressions (`"20"`, `"9-20"`, `"2025/09/20"`) into canonical
//! `YYYY-MM-DD` strings relative to a caller-supplied "today", rolling
//! ambiguous month/day expressions forward to the nearest future occurrence.
//! The [`store`] module wraps the SQLite tables behind a facade whose
//! add/list/edit operations are specified over a mathematical model of the
//! two tables.

pub mod date;
pub mod laws;
pub mod parse;
pub mod sql;
pub mod store;
pub mod task;
pub mod text;

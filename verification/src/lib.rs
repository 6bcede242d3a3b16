//! Capture-and-retention engine for a clipboard history: a hierarchical data
//! model (event, item, typed payload), content-addressed deduplication, a
//! capacity-bounded durable store, change detection for the polling loop, and
//! the plan a restore pushes back onto the platform clipboard.

pub mod clipboard_event;
pub mod errors;
pub mod event;
pub mod hashing;
pub mod order;
pub mod poll;
pub mod restore;
pub mod sqlite;
pub mod storage;

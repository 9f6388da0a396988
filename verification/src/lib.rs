//! Poll-based directory change detection.
//!
//! The library owns the watch engine's state and logic: a snapshot mapping
//! file paths to their last-observed modification times, and the diff step
//! that classifies each difference between the snapshot and a fresh
//! directory listing as a creation, an update, or a deletion. Reading the
//! filesystem and driving the poll loop are left to the surrounding program,
//! which hands each fresh listing to [`FileWatcher::poll`] as plain
//! path/timestamp pairs.

pub mod engine;
pub mod events;
pub mod laws;
pub mod model;

pub use engine::FileWatcher;
pub use events::ChangeEvent;
pub use events::FileEvent;

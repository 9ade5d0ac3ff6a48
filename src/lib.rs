//! Typed, named collections over one ordered byte store, with copy-on-write
//! overlays and resumable cursors.

pub mod bytes;
pub mod sorted_map;
pub mod changes;
pub mod snapshot;
pub mod address;
pub mod view;
pub mod codec;
pub mod db;
pub mod persistent;
pub mod laws;
pub mod entry;
pub mod cli;

//! Bounded, tick-indexed value histories for rollback networking.
//!
//! The crate is layered from the bottom up:
//! - [`layout`]: size and alignment arithmetic for items stored back to back;
//! - [`bits`]: facts about the bits of a 64-bit mask;
//! - [`blob_deque`]: a fixed-capacity ring buffer that owns its items;
//! - [`sparse_blob_deque`]: a window of slots in which only occupied slots use ring storage;
//! - [`component_history`]: tick arithmetic, removal markers, gap filling and retention for
//!   one attribute;
//! - [`entity_history`]: the histories of all attributes of one entity;
//! - [`resource_history`]: the per-tick history of a single resource;
//! - [`registry`] and [`frames`]: registered attribute types and the retention window;
//! - [`input_history`] and [`input_queue`]: a player's recent inputs, and the inputs a
//!   server holds for the ticks to come;
//! - [`load`]: what a load pass does with each attribute;
//! - [`laws`]: properties of recording and reading, proved over the history model.
pub mod bits;
pub mod layout;
pub mod blob_deque;
pub mod sparse_blob_deque;
pub mod component_history;
pub mod entity_history;
pub mod frames;
pub mod registry;
pub mod resource_history;
pub mod load;
pub mod input_history;
pub mod input_queue;
pub mod laws;

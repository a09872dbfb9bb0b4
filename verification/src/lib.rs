//! A small task-tracking library: an ordered store of tasks with unique
//! identifiers, argument parsing for add requests, rendering of pending
//! tasks, and a JSON encoding of the store proved to round-trip.

pub mod store;
pub mod text;
pub mod args;
pub mod render;
pub mod run;
pub mod codec;
pub mod parse;

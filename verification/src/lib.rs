//! A small, verified to-do list core: an ordered task store with sequential
//! id assignment, and a textual codec that persists the full task sequence.
//!
//! The interactive shell around it (menus, file handling, worker threads) is
//! an ordinary Rust program that calls into this crate.

pub mod codec;
pub mod store;
pub mod task;

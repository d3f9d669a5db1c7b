//! Ownership bookkeeping for global hotkey bindings.
//!
//! The native hotkey facility keeps, for each key combination, an opaque
//! handle that it hands back when the keys are pressed; it never frees what
//! the handle stands for. This crate is the owner of that storage. It keeps
//! every callback and its context in a handle table, decides which native
//! calls have to be made and in which order, and reclaims a registration only
//! after the native side has been told to forget it.
//!
//! The crate performs no native call itself. Each operation yields a
//! [`registry::Step`]: either a [`native::NativeCall`] for the embedding
//! program to perform, or the final outcome.

pub mod init;
pub mod laws;
pub mod ledger;
pub mod model;
pub mod native;
pub mod registry;

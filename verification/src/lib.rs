//! A verified topic registry for a publish/subscribe rendezvous service.
//!
//! Publishers announce where they can be reached for a topic; the registry
//! validates the topic name, allocates a unique id, and records the entry in
//! an in-memory directory. The capability returned by a successful
//! registration is the only way the entry is ever removed again: releasing it
//! deletes exactly that entry, and deletes the topic key itself when the
//! entry was the last one.

pub mod directory;
pub mod laws;
pub mod registry;
pub mod topic;

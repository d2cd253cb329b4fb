//! Client-side engine for a live mirror of a remote hierarchical document
//! store: a tree value with replace/merge patching, a change-frame parser,
//! and the synchronization state machine that applies a push stream of
//! frames to a local snapshot.

pub mod client;
pub mod frame;
pub mod worker;
pub mod json;
pub mod tree;

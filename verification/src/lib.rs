//! A two-node note synchronizer core: an immutable note store, a text codec
//! for note files, a normalizer that turns filesystem events into store
//! mutations, a self-delimiting wire format for whole-store snapshots, and
//! the reconciliation step that merges local and remote updates.

pub mod codec;
pub mod events;
pub mod model;
pub mod sync;
pub mod wire;

//! An in-process, multi-tenant registry for work items moving through a
//! small lifecycle state machine.
//!
//! The central type is [`Bowl`]: a store partitioned first by record shape
//! (one store value per shape), then by organization name, then by item
//! identifier. It supports insert-or-replace, point lookup, in-place state
//! mutation, deletion and state-filtered enumeration, and every operation is
//! total: a missing organization or identifier is a normal empty result,
//! never a panic.

pub mod laws;
pub mod lifecycle;
pub mod record;
pub mod store;

pub use lifecycle::State;
pub use record::MediaFile;
pub use record::MediaTrait;
pub use record::Thumbnail;
pub use store::Bowl;

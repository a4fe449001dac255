//! Hierarchical, idempotent shutdown coordination.
//!
//! A [`Registry`] holds every shutdown handle of a process as a node of a
//! graph: each node has a shut flag, an ordered list of children that it shuts
//! when it shuts itself, an ordered list of pending cleanup hooks, and a
//! broadcast signal that releases the tasks waiting on it.
//! A [`ShutUp`] is a handle on one such node.
use vstd::prelude::*;

pub mod signal;
pub mod registry;
pub mod handle;
pub mod laws;

pub use handle::ShutUp;
pub use registry::{HookId, Registry, MAX_SUBSCRIBERS};

verus! {

/// What waiting on a handle gives: a future that ends with the handle's
/// shutdown and can be sent to another task.
pub trait Wait: core::future::Future<Output = ()> + Send + 'static {}

impl<T> Wait for T where T: core::future::Future<Output = ()> + Send + 'static {}

} // verus!

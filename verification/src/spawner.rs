//! How a task gets onto an executor.
use std::future::Future;
use vstd::prelude::*;

verus! {

/// Spawns a future onto an executor.
///
/// Implement this to use a runtime of your own with [`later_with`](crate::later_with).
pub trait Spawner {
    /// Hands over a future that is to run to its end on its own.
    fn spawn<F: Future<Output = ()> + Send + 'static>(&self, future: F);
}

} // verus!

//! Cleanup that may wait.
//!
//! [`later_with`] wraps a value in a guard. When the guard is dropped, a task cleans the value up.
//! [`derive_async_drop`] writes the cleanup of a struct or an enum out of the cleanups of its
//! fields, and [`ordering`] puts the cleanups of several values in order.
pub mod __private;
pub mod channel;
pub mod containers;
pub mod derive;
pub mod guard;
pub mod ordering;
pub mod polling;
mod spawner;
pub mod task;

pub use derive::expand::{derive_async_drop, FoundCrate};
pub use guard::DropLater;
pub use spawner::Spawner;
pub use task::later_with;

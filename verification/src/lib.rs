//! A fixed-capacity, priority-ordered ready queue for a thread scheduler.
//!
//! The queue decides which ready thread runs next. It is built from two
//! cooperating substructures: a [`bitmap::PriorityBitmap`] with one bit per
//! priority level, set exactly when that level holds a ready thread, and one
//! [`list::LevelList`] per level, a bounded circular doubly-linked list of
//! thread identifiers threaded through preallocated per-thread link slots
//! ([`list::Links`]), so that every operation runs in constant time and
//! without allocation. [`queue::RunQueue`] composes them and exposes the
//! scheduler-facing operations `add`, `del`, `peek_head` and `advance`.
//!
//! The queue performs no synchronization of its own: a scheduler that shares
//! one instance across execution contexts must serialize every call.

pub mod bitmap;
pub mod ids;
pub mod laws;
pub mod list;
pub mod model;
pub mod queue;

pub use bitmap::PriorityBitmap;
pub use ids::RunqueueId;
pub use ids::ThreadId;
pub use list::LevelList;
pub use list::Links;
pub use queue::RunQueue;

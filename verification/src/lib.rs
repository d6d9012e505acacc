//! A retained-tree reconciler: keeps a native widget tree and a parallel
//! flexbox layout tree synchronized with an ordered stream of edit
//! operations, and plans the native actions that mirror each change.

pub mod arena;
pub mod codec;
pub mod events;
pub mod laws;
pub mod layout;
pub mod node;
pub mod ops;
pub mod reconciler;
pub mod sched;
pub mod style;

//! Task storage and the life cycle of a task.
pub mod arena;
pub mod state;

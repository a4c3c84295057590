//! A hierarchical task manager: tasks carry text and a completion flag, may hold
//! subtasks (worked through in order or in any order) and may wait on predecessor
//! tasks. The manager answers which tasks are currently actionable.

pub mod task;
pub mod model;
pub mod text;
pub mod manager;
pub mod links;
pub mod query_laws;
pub mod laws;

pub use task::Task;
pub use manager::{TaskManager, TaskManagerData};

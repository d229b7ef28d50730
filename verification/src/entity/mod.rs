//! The records that the coordinator keeps for each task and for each node
//! that has joined a task.

pub mod node_entity;
pub mod task_entity;

pub use node_entity::{NodeEntity, NodeView};
pub use task_entity::{TaskEntity, TaskSlot};

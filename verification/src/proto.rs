//! The messages that the coordinator's services exchange with managers and
//! with client clusters.

use vstd::prelude::*;

verus! {

/// The slot layout of a task, as requested and as reported, with the slots
/// allotted so far.
#[derive(Debug, Clone, PartialEq, Eq)]
pub struct Slot {
    pub count: i32,
    pub slot_alloc: Vec<i32>,
    pub node_max_count: i32,
    pub node_min_count: i32,
}

/// How long a silent node stays in a task.
#[derive(Debug, Clone, Copy, PartialEq, Eq, Structural)]
pub struct Strategy {
    pub dead_timeout_sec: i32,
}

/// A request to create a task.
#[derive(Debug, Clone)]
pub struct CreateTaskRequest {
    pub name: String,
    pub app_id: Option<i32>,
    pub slot: Option<Slot>,
    pub strategy: Option<Strategy>,
}

/// A node as the service reports it.
#[derive(Debug, Clone)]
pub struct Node {
    pub code: String,
    pub addr: String,
    pub status: i32,
    pub last_ping_time: i64,
}

/// A task as the service reports it.
#[derive(Debug, Clone)]
pub struct Task {
    pub id: i64,
    pub app_id: i32,
    pub name: String,
    pub version: i32,
    pub nodes: Vec<Node>,
    pub strategy: Option<Strategy>,
    pub slot: Option<Slot>,
}

/// A request of a node to join a task.
#[derive(Debug, Clone)]
pub struct JoinTaskRequest {
    pub task_id: i64,
    pub code: String,
    pub addr: String,
}

} // verus!

use vstd::prelude::*;

use crate::ids;
use crate::proto::{CreateTaskRequest, Slot, Strategy, Task};

verus! {

/// How the slots of a task are laid out: how many there are, and how many
/// nodes the task wants at most and at least.
#[derive(Debug, Clone)]
pub struct TaskSlot {
    pub slot_count: i32,
    pub node_max_count: i32,
    pub node_min_count: i32,
}

/// A task that client clusters can join.
#[derive(Debug, Clone)]
pub struct TaskEntity {
    pub task_id: i64,
    pub app_id: i32,
    pub task_name: String,
    pub version: i32,
    pub secret: String,
    pub dead_timeout_sec: i32,
    pub slot: TaskSlot,
    pub created_at: i64,
    pub updated_at: i64,
}

impl Default for TaskSlot {
    fn default() -> (r: TaskSlot)
        ensures
            r.slot_count == 0,
            r.node_max_count == 0,
            r.node_min_count == 0,
    {
        TaskSlot { slot_count: 0, node_max_count: 0, node_min_count: 0 }
    }
}

impl Default for TaskEntity {
    fn default() -> (r: TaskEntity)
        ensures
            r.task_id == 0,
            r.app_id == 0,
            r.task_name@ == Seq::<char>::empty(),
            r.version == 0,
            r.secret@ == Seq::<char>::empty(),
            r.dead_timeout_sec == 0,
            r.slot.slot_count == 0,
            r.slot.node_max_count == 0,
            r.slot.node_min_count == 0,
            r.created_at == 0,
            r.updated_at == 0,
    {
        TaskEntity {
            task_id: 0,
            app_id: 0,
            task_name: String::new(),
            version: 0,
            secret: String::new(),
            dead_timeout_sec: 0,
            slot: TaskSlot::default(),
            created_at: 0,
            updated_at: 0,
        }
    }
}

impl TaskEntity {
    /// The task that a creation request describes, given its identifier, its
    /// secret and the creation time. The application defaults to 1; the
    /// request must carry a slot layout and a strategy.
    pub fn from_create_request_with(
        value: CreateTaskRequest,
        task_id: i64,
        secret: String,
        now: i64,
    ) -> (r: TaskEntity)
        requires
            value.slot is Some,
            value.strategy is Some,
        ensures
            r.task_id == task_id,
            r.app_id == (match value.app_id {
                Some(a) => a,
                None => 1i32,
            }),
            r.task_name@ == value.name@,
            r.version == 0,
            r.secret@ == secret@,
            r.dead_timeout_sec == value.strategy->0.dead_timeout_sec,
            r.slot.slot_count == value.slot->0.count,
            r.slot.node_max_count == value.slot->0.node_max_count,
            r.slot.node_min_count == value.slot->0.node_min_count,
            r.created_at == now,
            r.updated_at == now,
    {
        let slot = value.slot.unwrap();
        let strategy = value.strategy.unwrap();
        let app_id = match value.app_id {
            Some(a) => a,
            None => 1,
        };
        TaskEntity {
            task_id,
            app_id,
            task_name: value.name,
            version: 0,
            secret,
            dead_timeout_sec: strategy.dead_timeout_sec,
            slot: TaskSlot {
                slot_count: slot.count,
                node_max_count: slot.node_max_count,
                node_min_count: slot.node_min_count,
            },
            created_at: now,
            updated_at: now,
        }
    }

    /// The task that a creation request describes, with a fresh snowflake
    /// identifier, a fresh random secret, and the current time as both its
    /// creation and its update time.
    pub fn from_create_request(value: CreateTaskRequest) -> (r: TaskEntity)
        requires
            value.slot is Some,
            value.strategy is Some,
        ensures
            r.task_id >= 0,
            r.app_id == (match value.app_id {
                Some(a) => a,
                None => 1i32,
            }),
            r.task_name@ == value.name@,
            r.version == 0,
            r.dead_timeout_sec == value.strategy->0.dead_timeout_sec,
            r.slot.slot_count == value.slot->0.count,
            r.slot.node_max_count == value.slot->0.node_max_count,
            r.slot.node_min_count == value.slot->0.node_min_count,
            r.created_at == r.updated_at,
            r.created_at >= 0,
            ids::clock_reading(r.created_at as int),
    {
        let nt = ids::utc_timestamp();
        let task_id = ids::snowflake_id();
        let secret = ids::uuid_v4();
        TaskEntity::from_create_request_with(value, task_id, secret, nt)
    }

    /// The task as the service reports it: no node listed yet, and the
    /// layout's minimum reported as its maximum, as the service always did.
    pub fn into_task(self) -> (r: Task)
        ensures
            r.id == self.task_id,
            r.app_id == self.app_id,
            r.name@ == self.task_name@,
            r.version == self.version,
            r.nodes@.len() == 0,
            r.strategy == Some(Strategy { dead_timeout_sec: self.dead_timeout_sec }),
            r.slot matches Some(s) && s.count == self.slot.slot_count && s.slot_alloc@.len() == 0
                && s.node_max_count == self.slot.node_max_count && s.node_min_count
                == self.slot.node_max_count,
    {
        Task {
            id: self.task_id,
            app_id: self.app_id,
            name: self.task_name,
            version: self.version,
            nodes: Vec::new(),
            strategy: Some(Strategy { dead_timeout_sec: self.dead_timeout_sec }),
            slot: Some(
                Slot {
                    count: self.slot.slot_count,
                    slot_alloc: Vec::new(),
                    node_max_count: self.slot.node_max_count,
                    node_min_count: self.slot.node_max_count,
                },
            ),
        }
    }
}

} // verus!

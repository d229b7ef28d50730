use vstd::prelude::*;

use crate::ids;
use crate::proto::{JoinTaskRequest, Node};

verus! {

/// A node of a client cluster that works on a task, together with the slots
/// (`tags`) that it currently owns.
#[derive(Debug, Clone)]
pub struct NodeEntity {
    pub code: String,
    pub addr: String,
    pub status: i32,
    pub tags: Vec<i32>,
    pub last_ping_time: i64,
    pub slot_version: i64,
    pub created_at: i64,
}

/// The mathematical value of a [`NodeEntity`].
pub struct NodeView {
    pub code: Seq<char>,
    pub addr: Seq<char>,
    pub status: i32,
    pub tags: Seq<i32>,
    pub last_ping_time: i64,
    pub slot_version: i64,
    pub created_at: i64,
}

impl NodeView {
    /// The same node, owning the slots `tags` instead of its own.
    pub open spec fn with_tags(self, tags: Seq<i32>) -> NodeView {
        NodeView { tags, ..self }
    }

    /// The node with no slot at all: what stays of it once its slots are set aside.
    pub open spec fn untagged(self) -> NodeView {
        self.with_tags(Seq::empty())
    }
}

impl View for NodeEntity {
    type V = NodeView;

    open spec fn view(&self) -> NodeView {
        NodeView {
            code: self.code@,
            addr: self.addr@,
            status: self.status,
            tags: self.tags@,
            last_ping_time: self.last_ping_time,
            slot_version: self.slot_version,
            created_at: self.created_at,
        }
    }
}

/// The views of a list of nodes, in order.
pub open spec fn node_views(nodes: Seq<NodeEntity>) -> Seq<NodeView> {
    nodes.map_values(|n: NodeEntity| n@)
}

impl Default for NodeEntity {
    fn default() -> (r: NodeEntity)
        ensures
            r@.code == Seq::<char>::empty(),
            r@.addr == Seq::<char>::empty(),
            r@.status == 0,
            r@.tags == Seq::<i32>::empty(),
            r@.last_ping_time == 0,
            r@.slot_version == 0,
            r@.created_at == 0,
    {
        NodeEntity {
            code: String::new(),
            addr: String::new(),
            status: 0,
            tags: Vec::new(),
            last_ping_time: 0,
            slot_version: 0,
            created_at: 0,
        }
    }
}

impl NodeEntity {
    /// The node that a join request describes, registered at time `now`
    /// (seconds since the epoch): active (`status` 1), with no slot yet.
    pub fn from_join_request_at(value: JoinTaskRequest, now: i64) -> (r: NodeEntity)
        ensures
            r@ == (NodeView {
                code: value.code@,
                addr: value.addr@,
                status: 1,
                tags: Seq::empty(),
                last_ping_time: now,
                slot_version: 0,
                created_at: now,
            }),
    {
        NodeEntity {
            code: value.code,
            addr: value.addr,
            status: 1,
            tags: Vec::new(),
            last_ping_time: now,
            slot_version: 0,
            created_at: now,
        }
    }

    /// The node that a join request describes, registered now: the clock is
    /// read once and gives both its creation time and its last ping time.
    pub fn from_join_request(value: JoinTaskRequest) -> (r: NodeEntity)
        ensures
            r@.code == value.code@,
            r@.addr == value.addr@,
            r@.status == 1,
            r@.tags == Seq::<i32>::empty(),
            r@.slot_version == 0,
            r@.created_at == r@.last_ping_time,
            r@.created_at >= 0,
            ids::clock_reading(r@.created_at as int),
    {
        let t = ids::utc_timestamp();
        NodeEntity::from_join_request_at(value, t)
    }

    /// The node as the service reports it to its clients.
    pub fn into_node(self) -> (r: Node)
        ensures
            r.code@ == self.code@,
            r.addr@ == self.addr@,
            r.status == self.status,
            r.last_ping_time == self.last_ping_time,
    {
        Node {
            code: self.code,
            addr: self.addr,
            status: self.status,
            last_ping_time: self.last_ping_time,
        }
    }

    /// Whether two nodes are the same record, field by field.
    pub fn same_record(&self, other: &NodeEntity) -> (r: bool)
        ensures
            r == (self@ == other@),
    {
        if self.code != other.code || self.addr != other.addr || self.status != other.status
            || self.last_ping_time != other.last_ping_time
            || self.slot_version != other.slot_version || self.created_at != other.created_at
            || self.tags.len() != other.tags.len() {
            return false;
        }
        let mut i: usize = 0;
        while i < self.tags.len()
            invariant
                self.tags.len() == other.tags.len(),
                i <= self.tags.len(),
                forall|j: int| 0 <= j < i ==> self.tags@[j] == other.tags@[j],
            decreases self.tags.len() - i,
        {
            if self.tags[i] != other.tags[i] {
                return false;
            }
            i = i + 1;
        }
        assert(self.tags@ == other.tags@);
        true
    }
}

} // verus!

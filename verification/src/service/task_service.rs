//! Creating tasks and reporting them.

use vstd::prelude::*;

use crate::entity::{NodeEntity, NodeView, TaskEntity};
use crate::entity::node_entity::node_views;
use crate::proto::{CreateTaskRequest, Node, Strategy, Task};
use crate::reply::ReplyStatus;

verus! {

/// Whether `n` reports the node `v`.
pub open spec fn reports(n: Node, v: NodeView) -> bool {
    &&& n.code@ == v.code
    &&& n.addr@ == v.addr
    &&& n.status == v.status
    &&& n.last_ping_time == v.last_ping_time
}

/// Whether `r` reports the task `t` with the nodes `nodes`.
pub open spec fn reports_task(r: Task, t: TaskEntity, nodes: Seq<NodeView>) -> bool {
    &&& r.id == t.task_id
    &&& r.app_id == t.app_id
    &&& r.name@ == t.task_name@
    &&& r.version == t.version
    &&& r.strategy == Some(Strategy { dead_timeout_sec: t.dead_timeout_sec })
    &&& r.slot matches Some(s) && s.count == t.slot.slot_count && s.slot_alloc@.len() == 0
        && s.node_max_count == t.slot.node_max_count && s.node_min_count == t.slot.node_max_count
    &&& r.nodes@.len() == nodes.len()
    &&& forall|i: int| 0 <= i < nodes.len() ==> reports(#[trigger] r.nodes@[i], nodes[i])
}

/// Checks a creation request: it needs a slot layout, then a strategy; the
/// message says what is missing.
pub fn check_create_request(req: &CreateTaskRequest) -> (r: Result<(), String>)
    ensures
        req.slot is None ==> (r is Err && r->Err_0@ == "request slot is nil"@),
        req.slot is Some && req.strategy is None ==> (r is Err && r->Err_0@
            == "request strategy is nil"@),
        req.slot is Some && req.strategy is Some ==> r is Ok,
{
    proof {
        reveal_strlit("request slot is nil");
        reveal_strlit("request strategy is nil");
    }
    if req.slot.is_none() {
        return Err(String::from_str("request slot is nil"));
    }
    if req.strategy.is_none() {
        return Err(String::from_str("request strategy is nil"));
    }
    Ok(())
}

/// A report of a task carries the task's own identity (identifier,
/// application, name, version), and lists, position by position, every node
/// it is given with that node's code, address, status and last ping.
pub proof fn law_report_carries_every_field(r: Task, t: TaskEntity, ns: Seq<NodeEntity>)
    requires
        reports_task(r, t, node_views(ns)),
    ensures
        r.id == t.task_id,
        r.app_id == t.app_id,
        r.name@ == t.task_name@,
        r.version == t.version,
        r.nodes@.len() == ns.len(),
        forall|i: int|
            0 <= i < ns.len() ==> {
                &&& (#[trigger] r.nodes@[i]).code@ == ns[i].code@
                &&& r.nodes@[i].addr@ == ns[i].addr@
                &&& r.nodes@[i].status == ns[i].status
                &&& r.nodes@[i].last_ping_time == ns[i].last_ping_time
            },
{
    assert forall|i: int| 0 <= i < ns.len() implies {
        &&& (#[trigger] r.nodes@[i]).code@ == ns[i].code@
        &&& r.nodes@[i].addr@ == ns[i].addr@
        &&& r.nodes@[i].status == ns[i].status
        &&& r.nodes@[i].last_ping_time == ns[i].last_ping_time
    } by {
        assert(reports(r.nodes@[i], node_views(ns)[i]));
        assert(node_views(ns)[i] == ns[i]@);
    }
}

/// A task as reported with the nodes that work on it.
pub fn task_detail(task: TaskEntity, ns: Vec<NodeEntity>) -> (r: Task)
    ensures
        reports_task(r, task, node_views(ns@)),
        r.id == task.task_id,
        r.app_id == task.app_id,
        r.name@ == task.task_name@,
        r.version == task.version,
        r.nodes@.len() == ns@.len(),
        forall|i: int|
            0 <= i < ns@.len() ==> {
                &&& (#[trigger] r.nodes@[i]).code@ == ns@[i].code@
                &&& r.nodes@[i].addr@ == ns@[i].addr@
                &&& r.nodes@[i].status == ns@[i].status
                &&& r.nodes@[i].last_ping_time == ns@[i].last_ping_time
            },
{
    let ghost ns0 = ns@;
    let ghost t = task;
    let mut report = task.into_task();
    let mut nodes: Vec<Node> = Vec::new();
    let mut src = ns;
    let ghost all = node_views(src@);
    let total = src.len();
    let mut k: usize = 0;
    while src.len() > 0
        invariant
            all.len() == total,
            k + src@.len() == all.len(),
            nodes@.len() == k,
            node_views(src@) == all.skip(k as int),
            forall|i: int| 0 <= i < k ==> reports(#[trigger] nodes@[i], all[i]),
        decreases src@.len(),
    {
        let ghost before = src@;
        let n = src.remove(0);
        proof {
            assert(node_views(before)[0] == before[0]@);
            assert(all.skip(k as int)[0] == all[k as int]);
            assert forall|j: int| 0 <= j < src@.len() implies #[trigger] node_views(src@)[j]
                == all.skip(k as int + 1)[j] by {
                assert(src@[j] == before[j + 1]);
                assert(node_views(before)[j + 1] == before[j + 1]@);
                assert(all.skip(k as int)[j + 1] == all[k as int + 1 + j]);
            }
            assert(node_views(src@) =~= all.skip(k as int + 1));
        }
        nodes.push(n.into_node());
        k = k + 1;
    }
    report.nodes = nodes;
    proof {
        law_report_carries_every_field(report, t, ns0);
    }
    report
}

/// The answer to a request to delete a task: deleting is not supported.
pub fn task_delete_reply() -> (r: ReplyStatus)
    ensures
        r.code == 500,
        r.message@ == "server error:\"not delete task\""@,
{
    proof {
        reveal_strlit("server error:");
        reveal_strlit("\"not delete task\"");
        reveal_strlit("server error:\"not delete task\"");
    }
    let r = ReplyStatus::server_error("\"not delete task\"");
    assert(r.message@ =~= "server error:\"not delete task\""@);
    r
}


/// The tasks as reported in a listing, in the same order, without their nodes.
pub fn task_list(tasks: Vec<TaskEntity>) -> (r: Vec<Task>)
    ensures
        r@.len() == tasks@.len(),
        forall|i: int| 0 <= i < tasks@.len() ==> reports_task(#[trigger] r@[i], tasks@[i], Seq::empty()),
        forall|i: int|
            0 <= i < tasks@.len() ==> {
                &&& (#[trigger] r@[i]).id == tasks@[i].task_id
                &&& r@[i].app_id == tasks@[i].app_id
                &&& r@[i].name@ == tasks@[i].task_name@
                &&& r@[i].version == tasks@[i].version
                &&& r@[i].nodes@.len() == 0
            },
{
    let ghost all = tasks@;
    let total = tasks.len();
    let mut src = tasks;
    let mut list: Vec<Task> = Vec::new();
    let mut k: usize = 0;
    while src.len() > 0
        invariant
            all.len() == total,
            k + src@.len() == all.len(),
            list@.len() == k,
            src@ == all.skip(k as int),
            forall|i: int| 0 <= i < k ==> reports_task(#[trigger] list@[i], all[i], Seq::empty()),
        decreases src@.len(),
    {
        let ghost before = src@;
        let t = src.remove(0);
        proof {
            assert(t == all[k as int]);
            assert(src@ =~= all.skip(k as int + 1));
        }
        list.push(t.into_task());
        k = k + 1;
    }
    proof {
        assert forall|i: int| 0 <= i < all.len() implies {
            &&& (#[trigger] list@[i]).id == all[i].task_id
            &&& list@[i].app_id == all[i].app_id
            &&& list@[i].name@ == all[i].task_name@
            &&& list@[i].version == all[i].version
            &&& list@[i].nodes@.len() == 0
        } by {
            law_report_carries_every_field(list@[i], all[i], Seq::empty());
        }
    }
    list
}

} // verus!

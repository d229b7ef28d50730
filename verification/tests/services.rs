use coordinate::entity::{NodeEntity, TaskEntity, TaskSlot};
use coordinate::lock::{lock_step, require_lock, LockStep, LOCK_ATTEMPTS};
use coordinate::proto::{CreateTaskRequest, Slot, Strategy};
use coordinate::reply::ReplyStatus;
use coordinate::service::auto_scan::{
    after_lock, is_young, is_young_at, live_slot_nodes, nodes_differ, scan_continues, ScanAction,
};
use coordinate::service::node_service::{plan_join, slot_distribution, JoinPlan};
use coordinate::service::task_service::{check_create_request, task_delete_reply, task_detail, task_list};

fn node(code: &str, tags: Vec<i32>) -> NodeEntity {
    NodeEntity { code: code.to_string(), tags, ..Default::default() }
}

#[test]
fn join_plan_for_a_known_node() {
    let slot = TaskSlot { slot_count: 4, node_max_count: 4, node_min_count: 0 };
    let plan = plan_join(&slot, vec![node("a", vec![0, 1, 2, 3])], node("a", vec![]));
    assert!(matches!(plan, JoinPlan::AlreadyJoined));
}

#[test]
fn join_plan_for_a_new_node() {
    let slot = TaskSlot { slot_count: 4, node_max_count: 4, node_min_count: 0 };
    let plan = plan_join(&slot, vec![node("a", vec![0, 1, 2, 3])], node("b", vec![]));
    match plan {
        JoinPlan::Rebalanced(ns) => {
            assert_eq!(ns.len(), 2);
            assert_eq!(ns[0].code, "a");
            assert_eq!(ns[0].tags, vec![0, 1]);
            assert_eq!(ns[1].code, "b");
            let mut t = ns[1].tags.clone();
            t.sort();
            assert_eq!(t, vec![2, 3]);
        }
        JoinPlan::AlreadyJoined => panic!("the node is new"),
    }
}

#[test]
fn slot_distribution_finds_the_first_node() {
    let ns = vec![node("a", vec![1]), node("b", vec![2, 3]), node("b", vec![4])];
    assert_eq!(slot_distribution(ns.clone(), &"b".to_string()), Some(vec![2, 3]));
    assert_eq!(slot_distribution(ns, &"z".to_string()), None);
}

#[test]
fn create_request_needs_slot_then_strategy() {
    let mut req = CreateTaskRequest { name: "t".to_string(), app_id: None, slot: None, strategy: None };
    assert_eq!(check_create_request(&req), Err("request slot is nil".to_string()));
    req.slot = Some(Slot { count: 1, slot_alloc: vec![], node_max_count: 1, node_min_count: 0 });
    assert_eq!(check_create_request(&req), Err("request strategy is nil".to_string()));
    req.strategy = Some(Strategy { dead_timeout_sec: 1 });
    assert_eq!(check_create_request(&req), Ok(()));
}

#[test]
fn task_detail_lists_nodes() {
    let task = TaskEntity { task_id: 3, task_name: "t".to_string(), ..Default::default() };
    let report = task_detail(task, vec![node("a", vec![1]), node("b", vec![])]);
    assert_eq!(report.id, 3);
    assert_eq!(report.nodes.len(), 2);
    assert_eq!(report.nodes[0].code, "a");
    assert_eq!(report.nodes[1].code, "b");
}

#[test]
fn task_list_keeps_order() {
    let a = TaskEntity { task_id: 1, ..Default::default() };
    let b = TaskEntity { task_id: 2, ..Default::default() };
    let list = task_list(vec![a, b]);
    assert_eq!(list.iter().map(|t| t.id).collect::<Vec<i64>>(), vec![1, 2]);
    assert!(list.iter().all(|t| t.nodes.is_empty()));
}

#[test]
fn replies_carry_their_codes() {
    let ok = ReplyStatus::success();
    assert_eq!((ok.code, ok.message.as_str()), (0, "success"));
    let bad = ReplyStatus::bad_request("node not found".to_string());
    assert_eq!((bad.code, bad.message.as_str()), (400, "node not found"));
    let err = ReplyStatus::server_error("Timeout");
    assert_eq!((err.code, err.message.as_str()), (500, "server error:Timeout"));
    let del = task_delete_reply();
    assert_eq!((del.code, del.message.as_str()), (500, "server error:\"not delete task\""));
}

#[test]
fn young_tasks_are_left_alone() {
    assert!(is_young_at(100, 150, 60));
    assert!(!is_young_at(90, 150, 60));
    assert!(!is_young_at(100, 160, 60));
    let old = TaskEntity { created_at: 0, ..Default::default() };
    let (now, young) = is_young(&old, 60);
    assert!(now > 1_600_000_000);
    assert_eq!(young, Some(false));
    let future = TaskEntity { created_at: i64::MAX, ..Default::default() };
    assert_eq!(is_young(&future, 60).1, Some(true));
    assert_eq!(is_young(&old, i64::MIN).1, None);
}

#[test]
fn changed_nodes_are_noticed() {
    let ns = vec![node("a", vec![]), node("b", vec![])];
    let same = vec![node("b", vec![1]), node("a", vec![2])];
    assert!(!nodes_differ(&ns, &same));
    assert!(nodes_differ(&ns, &vec![node("a", vec![])]));
    assert!(nodes_differ(&ns, &vec![node("a", vec![]), node("c", vec![])]));
}

#[test]
fn live_slot_nodes_keep_registered_records() {
    let a = node("a", vec![]);
    let b = node("b", vec![]);
    let ss = vec![node("a", vec![]), node("b", vec![1]), node("c", vec![])];
    let kept = live_slot_nodes(&vec![a.clone(), b], ss.clone());
    assert_eq!(kept.len(), 1);
    assert_eq!(kept[0].code, "a");
    assert!(live_slot_nodes(&vec![], ss).is_empty());
}

#[test]
fn scan_decisions() {
    assert!(scan_continues(0));
    assert!(scan_continues(1));
    assert!(!scan_continues(2));
    assert_eq!(after_lock(Some(true)), ScanAction::Scan);
    assert_eq!(after_lock(Some(false)), ScanAction::RetryLater);
    assert_eq!(after_lock(None), ScanAction::RetryLater);
}

#[test]
fn lock_retries_wait_longer_each_time() {
    assert_eq!(lock_step(0, LOCK_ATTEMPTS, true), LockStep::Acquired);
    assert_eq!(lock_step(0, LOCK_ATTEMPTS, false), LockStep::RetryAfter(1));
    assert_eq!(lock_step(1, LOCK_ATTEMPTS, false), LockStep::RetryAfter(2));
    assert_eq!(lock_step(2, LOCK_ATTEMPTS, false), LockStep::GiveUpAfter(3));
    assert_eq!(require_lock(true), Ok(()));
    assert_eq!(require_lock(false), Err("lock try failed".to_string()));
}

use coordinate::entity::{NodeEntity, TaskEntity, TaskSlot};
use coordinate::proto::{CreateTaskRequest, JoinTaskRequest, Slot, Strategy};

fn create_request(app_id: Option<i32>) -> CreateTaskRequest {
    CreateTaskRequest {
        name: "orders".to_string(),
        app_id,
        slot: Some(Slot { count: 32, slot_alloc: vec![], node_max_count: 16, node_min_count: 2 }),
        strategy: Some(Strategy { dead_timeout_sec: 60 }),
    }
}

#[test]
fn task_from_request_with_given_id_secret_and_time() {
    let task = TaskEntity::from_create_request_with(create_request(None), 7, "s3cr3t".to_string(), 1000);
    assert_eq!(task.task_id, 7);
    assert_eq!(task.app_id, 1);
    assert_eq!(task.task_name, "orders");
    assert_eq!(task.version, 0);
    assert_eq!(task.secret, "s3cr3t");
    assert_eq!(task.dead_timeout_sec, 60);
    assert_eq!(task.slot.slot_count, 32);
    assert_eq!(task.slot.node_max_count, 16);
    assert_eq!(task.slot.node_min_count, 2);
    assert_eq!(task.created_at, 1000);
    assert_eq!(task.updated_at, 1000);
    let task = TaskEntity::from_create_request_with(create_request(Some(9)), 7, String::new(), 0);
    assert_eq!(task.app_id, 9);
}

#[test]
fn task_from_request_draws_id_secret_and_time() {
    let task = TaskEntity::from_create_request(create_request(Some(3)));
    assert!(task.task_id > 0);
    assert_eq!(task.secret.len(), 36);
    assert!(task.created_at > 1_600_000_000);
    assert_eq!(task.created_at, task.updated_at);
    let other = TaskEntity::from_create_request(create_request(Some(3)));
    assert_ne!(task.secret, other.secret);
    assert_ne!(task.task_id, other.task_id);
}

#[test]
fn task_reports_min_as_max() {
    let task = TaskEntity::from_create_request_with(create_request(None), 5, String::new(), 0);
    let report = task.into_task();
    assert_eq!(report.id, 5);
    assert_eq!(report.name, "orders");
    assert!(report.nodes.is_empty());
    assert_eq!(report.strategy, Some(Strategy { dead_timeout_sec: 60 }));
    assert_eq!(report.slot, Some(Slot { count: 32, slot_alloc: vec![], node_max_count: 16, node_min_count: 16 }));
}

#[test]
fn node_from_join_request() {
    let req = JoinTaskRequest { task_id: 1, code: "n1".to_string(), addr: "10.0.0.1:80".to_string() };
    let node = NodeEntity::from_join_request_at(req.clone(), 1234);
    assert_eq!(node.code, "n1");
    assert_eq!(node.addr, "10.0.0.1:80");
    assert_eq!(node.status, 1);
    assert!(node.tags.is_empty());
    assert_eq!(node.last_ping_time, 1234);
    assert_eq!(node.created_at, 1234);
    assert_eq!(node.slot_version, 0);
    let now = NodeEntity::from_join_request(req);
    assert!(now.created_at > 1_600_000_000);
    assert_eq!(now.created_at, now.last_ping_time);
}

#[test]
fn node_reports_and_compares() {
    let node = NodeEntity { code: "n".to_string(), addr: "a".to_string(), status: 2, tags: vec![1, 2], last_ping_time: 9, ..Default::default() };
    assert!(node.same_record(&node.clone()));
    let mut other = node.clone();
    other.tags = vec![1, 3];
    assert!(!node.same_record(&other));
    let report = node.into_node();
    assert_eq!(report.code, "n");
    assert_eq!(report.addr, "a");
    assert_eq!(report.status, 2);
    assert_eq!(report.last_ping_time, 9);
}

#[test]
fn defaults_are_empty() {
    let node = NodeEntity::default();
    assert!(node.code.is_empty() && node.tags.is_empty() && node.status == 0);
    let task = TaskEntity::default();
    assert_eq!(task.task_id, 0);
    assert_eq!(task.slot.slot_count, 0);
    let slot = TaskSlot::default();
    assert_eq!(slot.node_max_count, 0);
}

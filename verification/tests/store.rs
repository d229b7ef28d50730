use coordinate::store::{
    lock_key, node_key, node_prefix, record, slot_key, slot_record, slot_revision, task_key,
    task_prefix, use_credentials, KeyValue, DB_VERSION,
};

#[test]
fn keys_follow_the_layout() {
    assert_eq!(task_key(42), format!("{}/task/42", DB_VERSION));
    assert_eq!(task_key(0), format!("{}/task/0", DB_VERSION));
    assert_eq!(task_key(-7), format!("{}/task/-7", DB_VERSION));
    assert_eq!(task_key(i64::MIN), format!("{}/task/{}", DB_VERSION, i64::MIN));
    assert_eq!(task_key(i64::MAX), format!("{}/task/{}", DB_VERSION, i64::MAX));
    assert_eq!(task_prefix(), format!("{}/task/", DB_VERSION));
    assert_eq!(node_prefix(1234567890), format!("{}/node/1234567890/", DB_VERSION));
    assert_eq!(node_key(5, "n1"), format!("{}/node/5/n1", DB_VERSION));
    assert_eq!(slot_key(10), format!("{}/slot/10", DB_VERSION));
    assert_eq!(lock_key("COORDINATION"), format!("{}/lock/COORDINATION", DB_VERSION));
}

#[test]
fn reads_of_one_key() {
    let kvs = vec![KeyValue { value: b"x".to_vec(), version: 3 }, KeyValue { value: b"y".to_vec(), version: 4 }];
    assert_eq!(record(kvs.clone()), Ok(b"x".to_vec()));
    assert_eq!(record(vec![]), Err("record not found".to_string()));
    assert_eq!(slot_record(kvs.clone()), Some((3, b"x".to_vec())));
    assert_eq!(slot_record(vec![]), None);
    assert_eq!(slot_revision(&kvs), Ok(3));
    assert_eq!(slot_revision(&vec![]), Err("slot revision not found".to_string()));
}

#[test]
fn credentials_need_both_parts() {
    assert!(use_credentials("root", "pw"));
    assert!(!use_credentials("", "pw"));
    assert!(!use_credentials("root", ""));
}

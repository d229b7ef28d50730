use coordinate::exit::{exit_begins, exit_settled, tasks_drained, Exit};
use coordinate::middles::MiddleExit;

#[test]
fn exit_life_cycle() {
    let exit = Exit::default();
    assert_eq!(exit.status(), 0);
    assert_eq!(exit.begin_exit(), (0, false));
    exit.start();
    assert_eq!(exit.status(), 1);
    exit.add_task();
    exit.add_task();
    exit.sub_task();
    assert_eq!(exit.task_count(), 1);
    let shared = exit.clone();
    assert_eq!(shared.begin_exit(), (1, true));
    assert_eq!(exit.status(), 2);
    exit.over();
    assert_eq!(shared.status(), 3);
}

#[test]
fn guard_admits_only_a_working_server() {
    let exit = Exit::default();
    let guard = MiddleExit::new(exit.clone());
    assert_eq!(guard.request(), Err("server not ready".to_string()));
    exit.start();
    assert_eq!(guard.request(), Ok(()));
    assert_eq!(exit.task_count(), 1);
    guard.response();
    assert_eq!(exit.task_count(), 0);
    exit.begin_exit();
    assert_eq!(guard.request(), Err("server exiting".to_string()));
    exit.over();
    assert_eq!(guard.request(), Err("server abnormal".to_string()));
    assert_eq!(MiddleExit::admission(7), Err("server abnormal".to_string()));
    assert_eq!(MiddleExit::admission(1), Ok(()));
}

#[test]
fn exit_wait_decisions() {
    assert!(!exit_begins(0));
    assert!(exit_begins(1));
    assert!(exit_begins(2));
    assert!(!exit_settled(2));
    assert!(exit_settled(3));
    assert!(tasks_drained(0));
    assert!(!tasks_drained(1));
}

use coordinate::entity::{NodeEntity, TaskSlot};
use coordinate::rebalance::SoltRebalance;
use coordinate::service::node_service::slot_distribution;
use std::collections::HashSet;

fn node(code: &str, tags: Vec<i32>) -> NodeEntity {
    NodeEntity {
        code: code.to_string(),
        tags,
        ..Default::default()
    }
}

fn all_slots(result: &[NodeEntity]) -> Vec<i32> {
    let mut all: Vec<i32> = result.iter().flat_map(|n| n.tags.iter().cloned()).collect();
    all.sort();
    all
}

#[test]
fn test_join_one() {
    let slot = TaskSlot {
        slot_count: 32,
        node_max_count: 8,
        node_min_count: 0,
    };
    let node_one = NodeEntity {
        tags: vec![],
        ..Default::default()
    };

    let result = SoltRebalance::new(&slot, vec![node_one]).balance();
    println!("{:?}", result)
}

#[test]
fn test_join_two() {
    let slot = TaskSlot {
        slot_count: 32,
        node_max_count: 16,
        node_min_count: 0,
    };
    let node_one = NodeEntity {
        tags: vec![17, 9, 4, 21, 8, 16, 31],
        ..Default::default()
    };
    let node_two = NodeEntity {
        tags: vec![],
        ..Default::default()
    };

    let result = SoltRebalance::new(&slot, vec![node_one]).join(node_two);
    println!("{:?}", result)
}

#[test]
fn test_join_three() {
    let slot = TaskSlot {
        slot_count: 32,
        node_max_count: 16,
        node_min_count: 0,
    };

    let node_two = NodeEntity {
        tags: vec![15, 6, 13, 3, 5, 20, 7, 0, 2, 29, 19],
        ..Default::default()
    };
    let node_three = NodeEntity {
        tags: vec![26, 10, 1, 11, 24, 14, 18, 12, 27, 22],
        ..Default::default()
    };
    let node_one = NodeEntity {
        tags: vec![17, 9, 4, 21, 8, 16, 31, 28, 25, 23, 30],
        ..Default::default()
    };

    let result = SoltRebalance::new(&slot, vec![node_one, node_two, node_three]).balance();
    println!("{:?}", result)
}

#[test]
fn test_join_four() {
    let slot = TaskSlot {
        slot_count: 32,
        node_max_count: 16,
        node_min_count: 0,
    };
    let node_one = NodeEntity {
        tags: vec![17, 9, 4, 21, 8, 16, 31, 28, 25, 23, 30, 12, 11, 24, 1],
        ..Default::default()
    };
    let node_two = NodeEntity {
        tags: vec![15, 6, 13, 3, 5, 20, 7, 0, 2, 29],
        ..Default::default()
    };
    let node_three = NodeEntity {
        tags: vec![],
        ..Default::default()
    };
    let node_four = NodeEntity {
        tags: vec![26, 10, 1, 11, 24, 14, 18, 12],
        ..Default::default()
    };

    let result =
        SoltRebalance::new(&slot, vec![node_one, node_two, node_four]).join(node_three);
    println!("{:?}", result)
}

#[test]
fn balance_of_no_node_is_empty() {
    let slot = TaskSlot { slot_count: 32, node_max_count: 16, node_min_count: 0 };
    assert!(SoltRebalance::new(&slot, vec![]).balance().is_empty());
}

#[test]
fn balance_single_node_stops_at_node_max_count() {
    let slot = TaskSlot { slot_count: 32, node_max_count: 8, node_min_count: 0 };
    let result = SoltRebalance::new(&slot, vec![node("a", vec![])]).balance();
    assert_eq!(result.len(), 1);
    assert_eq!(result[0].tags.len(), 8);
    let distinct: HashSet<i32> = result[0].tags.iter().cloned().collect();
    assert_eq!(distinct.len(), 8);
    assert!(result[0].tags.iter().all(|t| (0..32).contains(t)));
}

#[test]
fn join_of_a_new_node_shares_every_slot() {
    let slot = TaskSlot { slot_count: 32, node_max_count: 16, node_min_count: 0 };
    let one = node("one", vec![17, 9, 4, 21, 8, 16, 31]);
    let result = SoltRebalance::new(&slot, vec![one]).join(node("two", vec![]));
    assert_eq!(result.len(), 2);
    assert_eq!(result[0].code, "one");
    assert_eq!(result[1].code, "two");
    // the first node keeps its slots and receives more after them
    assert_eq!(&result[0].tags[..7], &[17, 9, 4, 21, 8, 16, 31]);
    assert_eq!(result[0].tags.len(), 16);
    assert_eq!(result[1].tags.len(), 16);
    assert_eq!(all_slots(&result), (0..32).collect::<Vec<i32>>());
}

#[test]
fn join_four_trims_and_fills() {
    let slot = TaskSlot { slot_count: 32, node_max_count: 16, node_min_count: 0 };
    let one = node("one", vec![17, 9, 4, 21, 8, 16, 31, 28, 25, 23, 30, 12, 11, 24, 1]);
    let two = node("two", vec![15, 6, 13, 3, 5, 20, 7, 0, 2, 29]);
    let four = node("four", vec![26, 10, 1, 11, 24, 14, 18, 12]);
    let result = SoltRebalance::new(&slot, vec![one, two, four]).join(node("three", vec![]));
    // the full nodes come first, the last of them first
    let codes: Vec<&str> = result.iter().map(|n| n.code.as_str()).collect();
    assert_eq!(codes, vec!["four", "two", "one", "three"]);
    assert_eq!(result[0].tags, vec![26, 10, 1, 11, 24, 14, 18, 12]);
    assert_eq!(result[1].tags, vec![15, 6, 13, 3, 5, 20, 7, 0]);
    assert_eq!(result[2].tags, vec![17, 9, 4, 21, 8, 16, 31, 28]);
    assert_eq!(result[3].tags.len(), 8);
    assert_eq!(all_slots(&result), (0..32).collect::<Vec<i32>>());
}

#[test]
fn balance_three_full_nodes_keeps_them() {
    let slot = TaskSlot { slot_count: 32, node_max_count: 16, node_min_count: 0 };
    let one = node("one", vec![17, 9, 4, 21, 8, 16, 31, 28, 25, 23, 30]);
    let two = node("two", vec![15, 6, 13, 3, 5, 20, 7, 0, 2, 29, 19]);
    let three = node("three", vec![26, 10, 1, 11, 24, 14, 18, 12, 27, 22]);
    let result = SoltRebalance::new(&slot, vec![one, two, three]).balance();
    let codes: Vec<&str> = result.iter().map(|n| n.code.as_str()).collect();
    assert_eq!(codes, vec!["two", "one", "three"]);
    assert_eq!(result[0].tags, vec![15, 6, 13, 3, 5, 20, 7, 0, 2, 29, 19]);
    assert_eq!(result[1].tags, vec![17, 9, 4, 21, 8, 16, 31, 28, 25, 23, 30]);
    assert_eq!(result[2].tags, vec![26, 10, 1, 11, 24, 14, 18, 12, 27, 22]);
}

#[test]
fn balance_gives_back_surplus_when_spare_runs_out() {
    // 7 slots over 3 nodes: a share of 3, for one node only.
    let slot = TaskSlot { slot_count: 7, node_max_count: 16, node_min_count: 0 };
    let a = node("a", vec![0, 1, 2]);
    let b = node("b", vec![3, 4, 5]);
    let c = node("c", vec![6]);
    let result = SoltRebalance::new(&slot, vec![a, b, c]).balance();
    let codes: Vec<&str> = result.iter().map(|n| n.code.as_str()).collect();
    assert_eq!(codes, vec!["b", "a", "c"]);
    assert_eq!(result[0].tags, vec![3, 4, 5]);
    assert_eq!(result[1].tags, vec![0, 1]);
    assert_eq!(result[2].tags, vec![6, 2]);
    assert_eq!(all_slots(&result), (0..7).collect::<Vec<i32>>());
}

#[test]
fn balance_node_one_short_of_share_takes_one_more() {
    // 7 slots over 3 nodes; once the full share is used up, a node short of
    // it by one still takes one slot.
    let slot = TaskSlot { slot_count: 7, node_max_count: 16, node_min_count: 0 };
    let a = node("a", vec![0, 1, 2]);
    let b = node("b", vec![3, 4]);
    let c = node("c", vec![]);
    let result = SoltRebalance::new(&slot, vec![a, b, c]).balance();
    let lens: Vec<usize> = result.iter().map(|n| n.tags.len()).collect();
    assert_eq!(lens, vec![3, 3, 1]);
    assert_eq!(all_slots(&result), (0..7).collect::<Vec<i32>>());
}

#[test]
fn balance_respects_node_max_count_below_share() {
    let slot = TaskSlot { slot_count: 10, node_max_count: 2, node_min_count: 0 };
    let a = node("a", vec![0, 1, 2, 3, 4]);
    let b = node("b", vec![5]);
    let result = SoltRebalance::new(&slot, vec![a, b]).balance();
    assert_eq!(result[0].code, "a");
    assert_eq!(result[0].tags, vec![0, 1]);
    assert_eq!(result[1].code, "b");
    assert_eq!(result[1].tags.len(), 2);
    assert_eq!(result[1].tags[0], 5);
}

#[test]
fn join_of_a_known_code_changes_nothing() {
    let slot = TaskSlot { slot_count: 4, node_max_count: 4, node_min_count: 0 };
    let a = node("a", vec![0, 1]);
    let b = node("b", vec![2, 3]);
    let result = SoltRebalance::new(&slot, vec![a, b]).join(node("a", vec![]));
    assert_eq!(result.len(), 2);
    assert_eq!(result[0].tags, vec![0, 1]);
    assert_eq!(result[1].tags, vec![2, 3]);
}

#[test]
fn remove_of_an_unknown_code_changes_nothing() {
    let slot = TaskSlot { slot_count: 4, node_max_count: 4, node_min_count: 0 };
    let a = node("a", vec![0, 1]);
    let result = SoltRebalance::new(&slot, vec![a]).remove("z".to_string());
    assert_eq!(result.len(), 1);
    assert_eq!(result[0].tags, vec![0, 1]);
}

#[test]
fn remove_hands_the_slots_to_the_others() {
    let slot = TaskSlot { slot_count: 6, node_max_count: 6, node_min_count: 0 };
    let a = node("a", vec![0, 1]);
    let b = node("b", vec![2, 3]);
    let c = node("c", vec![4, 5]);
    let result = SoltRebalance::new(&slot, vec![a, b, c]).remove("b".to_string());
    assert_eq!(result.len(), 2);
    assert!(result.iter().all(|n| n.code != "b"));
    assert_eq!(result[0].code, "a");
    assert_eq!(&result[0].tags[..2], &[0, 1]);
    assert_eq!(result[1].code, "c");
    assert_eq!(&result[1].tags[..2], &[4, 5]);
    assert_eq!(result[0].tags.len(), 3);
    assert_eq!(result[1].tags.len(), 3);
    assert_eq!(all_slots(&result), (0..6).collect::<Vec<i32>>());
}

#[test]
fn can_balance_reports_the_inputs_that_stop_a_rebalance() {
    let ok = TaskSlot { slot_count: 8, node_max_count: 4, node_min_count: 0 };
    assert!(SoltRebalance::new(&ok, vec![node("a", vec![])]).can_balance());
    assert!(SoltRebalance::new(&ok, vec![]).can_balance());
    let negative_cap = TaskSlot { slot_count: 8, node_max_count: -1, node_min_count: 0 };
    assert!(!SoltRebalance::new(&negative_cap, vec![node("a", vec![])]).can_balance());
    let negative_share = TaskSlot { slot_count: -4, node_max_count: 4, node_min_count: 0 };
    assert!(!SoltRebalance::new(&negative_share, vec![node("a", vec![])]).can_balance());
    // a cap of zero: two nodes that own slots, with a full share allowed for
    // both (8 slots over 2 nodes) is fine; with 9 slots over 2 nodes only
    // one of them may, and the second stops the rebalance.
    let zero_cap = TaskSlot { slot_count: 8, node_max_count: 0, node_min_count: 0 };
    let zero_cap_both = SoltRebalance::new(&zero_cap, vec![node("a", vec![1]), node("b", vec![2])]);
    assert!(zero_cap_both.can_balance());
    let result = zero_cap_both.balance();
    assert!(result.iter().all(|n| n.tags.is_empty()));
    let zero_cap_odd = TaskSlot { slot_count: 9, node_max_count: 0, node_min_count: 0 };
    assert!(!SoltRebalance::new(&zero_cap_odd, vec![node("a", vec![1]), node("b", vec![2])]).can_balance());
    assert!(SoltRebalance::new(&zero_cap_odd, vec![node("a", vec![1]), node("b", vec![])]).can_balance());
}

#[test]
fn joined_node_is_found_under_its_code() {
    let slot = TaskSlot { slot_count: 12, node_max_count: 12, node_min_count: 0 };
    let a = node("a", vec![0, 1, 2, 3, 4, 5]);
    let b = node("b", vec![6, 7, 8, 9, 10, 11]);
    let result = SoltRebalance::new(&slot, vec![a, b]).join(node("c", vec![]));
    let joined = result.iter().find(|n| n.code == "c").expect("the node joined");
    assert_eq!(joined.tags.len(), 4);
    assert_eq!(slot_distribution(result.clone(), &"c".to_string()), Some(joined.tags.clone()));
    // a second join of the same node changes nothing
    let again = SoltRebalance::new(&slot, result.clone()).join(node("c", vec![]));
    assert_eq!(again.len(), result.len());
    for (x, y) in again.iter().zip(result.iter()) {
        assert_eq!(x.code, y.code);
        assert_eq!(x.tags, y.tags);
    }
}

#[test]
fn two_rebalances_differ_only_in_the_free_slots_handed_out() {
    let slot = TaskSlot { slot_count: 20, node_max_count: 20, node_min_count: 0 };
    let make = || vec![node("a", vec![3, 1]), node("b", vec![]), node("c", vec![7, 8, 9, 10, 11, 12])];
    let first = SoltRebalance::new(&slot, make()).balance();
    let second = SoltRebalance::new(&slot, make()).balance();
    assert_eq!(first.len(), second.len());
    for (x, y) in first.iter().zip(second.iter()) {
        assert_eq!(x.code, y.code);
        assert_eq!(x.tags.len(), y.tags.len());
    }
    let lens: Vec<usize> = first.iter().map(|n| n.tags.len()).collect();
    assert_eq!(lens, vec![7, 7, 6]);
    assert_eq!(&first[0].tags[..2], &[3, 1]);
    assert_eq!(&first[2].tags[..], &[7, 8, 9, 10, 11, 12]);
    assert_eq!(all_slots(&first), (0..20).collect::<Vec<i32>>());
}

#[test]
fn rebalancing_a_balanced_task_moves_no_slot() {
    let slot = TaskSlot { slot_count: 7, node_max_count: 7, node_min_count: 0 };
    let a = node("a", vec![0, 1]);
    let b = node("b", vec![2, 3, 4]);
    let c = node("c", vec![5, 6]);
    let result = SoltRebalance::new(&slot, vec![a, b, c]).balance();
    let codes: Vec<&str> = result.iter().map(|n| n.code.as_str()).collect();
    assert_eq!(codes, vec!["b", "a", "c"]);
    assert_eq!(result[0].tags, vec![2, 3, 4]);
    assert_eq!(result[1].tags, vec![0, 1]);
    assert_eq!(result[2].tags, vec![5, 6]);
    let again = SoltRebalance::new(&slot, result.clone()).balance();
    for (x, y) in again.iter().zip(result.iter()) {
        assert_eq!(x.code, y.code);
        assert_eq!(x.tags, y.tags);
    }
}

#[test]
fn leaving_after_joining_restores_the_nodes() {
    let slot = TaskSlot { slot_count: 8, node_max_count: 8, node_min_count: 0 };
    let nodes = vec![node("a", vec![0, 1, 2, 3]), node("b", vec![4, 5, 6, 7])];
    let joined = SoltRebalance::new(&slot, nodes).join(node("c", vec![]));
    assert_eq!(joined.len(), 3);
    let left = SoltRebalance::new(&slot, joined).remove("c".to_string());
    let mut codes: Vec<String> = left.iter().map(|n| n.code.clone()).collect();
    codes.sort();
    assert_eq!(codes, vec!["a".to_string(), "b".to_string()]);
    assert_eq!(all_slots(&left), (0..8).collect::<Vec<i32>>());
}

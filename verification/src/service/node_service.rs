//! Nodes joining and leaving tasks, and asking for their slots.

use vstd::prelude::*;

use crate::entity::{NodeEntity, TaskSlot};
use crate::entity::node_entity::node_views;
use crate::rebalance::{SoltRebalance, balance_defined, balance_outcome, first_with_code, has_code};

verus! {

/// What a join request does to the slot assignment of its task.
#[derive(Debug)]
pub enum JoinPlan {
    /// A node with this code has joined already: nothing is written.
    AlreadyJoined,
    /// The node is registered and the slots are assigned anew, as given.
    Rebalanced(Vec<NodeEntity>),
}

/// The plan for `node` joining a task whose layout is `slot` and whose
/// current assignment is `ns`.
pub fn plan_join(slot: &TaskSlot, ns: Vec<NodeEntity>, node: NodeEntity) -> (r: JoinPlan)
    requires
        !has_code(node_views(ns@), node@.code) ==> balance_defined(
            *slot,
            node_views(ns@).push(node@),
        ),
    ensures
        has_code(node_views(ns@), node@.code) <==> r is AlreadyJoined,
        r matches JoinPlan::Rebalanced(v) ==> balance_outcome(
            *slot,
            node_views(ns@).push(node@),
            node_views(v@),
        ),
{
    let mut i: usize = 0;
    while i < ns.len()
        invariant
            i <= ns@.len(),
            forall|j: int| 0 <= j < i ==> #[trigger] node_views(ns@)[j].code != node@.code,
        decreases ns@.len() - i,
    {
        assert(node_views(ns@)[i as int] == ns@[i as int]@);
        if ns[i].code == node.code {
            assert(node_views(ns@)[i as int].code == node@.code);
            return JoinPlan::AlreadyJoined;
        }
        i = i + 1;
    }
    let rb = SoltRebalance::new(slot, ns);
    JoinPlan::Rebalanced(rb.join(node))
}

/// The slots assigned to the node `code`: those of the first node with that
/// code, or none when no node carries it.
pub fn slot_distribution(ns: Vec<NodeEntity>, code: &String) -> (r: Option<Vec<i32>>)
    ensures
        !has_code(node_views(ns@), code@) ==> r is None,
        forall|i: int|
            first_with_code(node_views(ns@), code@, i) ==> (r matches Some(t) && t@
                == #[trigger] node_views(ns@)[i].tags),
{
    let ghost nodes = node_views(ns@);
    let mut i: usize = 0;
    while i < ns.len()
        invariant
            i <= ns@.len(),
            nodes == node_views(ns@),
            forall|j: int| 0 <= j < i ==> #[trigger] nodes[j].code != code@,
        decreases ns@.len() - i,
    {
        assert(nodes[i as int] == ns@[i as int]@);
        if ns[i].code == *code {
            let mut ns = ns;
            let node = ns.swap_remove(i);
            proof {
                assert(nodes[i as int].code == code@);
                assert forall|m: int| first_with_code(nodes, code@, m) implies m == i as int by {
                    if m < i {
                        assert(nodes[m].code != code@);
                    } else if m > i {
                        assert(nodes[i as int].code != code@);
                    }
                }
            }
            return Some(node.tags);
        }
        i = i + 1;
    }
    None
}

} // verus!

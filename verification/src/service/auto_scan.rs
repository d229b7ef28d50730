//! The periodic inspection that rebalances the tasks whose nodes changed.

use vstd::prelude::*;

use crate::entity::{NodeEntity, NodeView, TaskEntity};
use crate::entity::node_entity::node_views;
use crate::ids;
use crate::rebalance::has_code;

verus! {

/// The global lock that only one coordinator holds while it inspects.
pub const AUTOSCALING_LOCK: &'static str = "COORDINATION_AUTOSCALING_LOCK_GLOBALLY";

/// Whether a task created at `created_at` is still too young, at time `now`,
/// to be inspected: tasks are left alone for `start_sec` seconds.
pub open spec fn too_young(created_at: i64, now: i64, start_sec: i64) -> bool {
    created_at > now - start_sec
}

/// Whether the registered nodes `ns` differ from the nodes `ss` that own the
/// slots: another count, or a registered node that owns no slot entry.
pub open spec fn nodes_changed(ns: Seq<NodeView>, ss: Seq<NodeView>) -> bool {
    ns.len() != ss.len() || exists|i: int| 0 <= i < ns.len() && !has_code(ss, #[trigger] ns[i].code)
}

/// Whether a task created at `created_at` is too young at time `now`.
pub fn is_young_at(created_at: i64, now: i64, start_sec: i64) -> (r: bool)
    requires
        i64::MIN <= now - start_sec <= i64::MAX,
    ensures
        r == too_young(created_at, now, start_sec),
{
    created_at > now - start_sec
}

/// Whether `task` is too young to be inspected now. The clock is read once
/// and its reading is handed back with the answer; the answer is `None` when
/// the reading minus `start_sec` leaves the range of `i64`.
pub fn is_young(task: &TaskEntity, start_sec: i64) -> (r: (i64, Option<bool>))
    ensures
        r.0 >= 0,
        ids::clock_reading(r.0 as int),
        r.1 is None <==> !(i64::MIN <= r.0 - start_sec <= i64::MAX),
        r.1 matches Some(b) ==> b == too_young(task.created_at, r.0, start_sec),
{
    let now = ids::utc_timestamp();
    match now.checked_sub(start_sec) {
        Some(_) => (now, Some(is_young_at(task.created_at, now, start_sec))),
        None => (now, None),
    }
}

/// A task whose number of registered nodes differs from its number of slot
/// entries has changed.
pub proof fn law_count_change_is_change(ns: Seq<NodeView>, ss: Seq<NodeView>)
    requires
        ns.len() != ss.len(),
    ensures
        nodes_changed(ns, ss),
{
}

/// A registered node, at any position `i`, whose code no slot entry carries
/// means that the task has changed.
pub proof fn law_unknown_code_is_change(ns: Seq<NodeView>, ss: Seq<NodeView>, i: int)
    requires
        0 <= i < ns.len(),
        forall|j: int| 0 <= j < ss.len() ==> #[trigger] ss[j].code != ns[i].code,
    ensures
        nodes_changed(ns, ss),
{
    assert(!has_code(ss, ns[i].code));
}

/// When the counts agree and every registered code is carried by some slot
/// entry, the task has not changed.
pub proof fn law_all_codes_known_is_no_change(ns: Seq<NodeView>, ss: Seq<NodeView>)
    requires
        ns.len() == ss.len(),
        forall|i: int|
            #![trigger ns[i]]
            0 <= i < ns.len() ==> exists|j: int| 0 <= j < ss.len() && #[trigger] ss[j].code === ns[i].code,
    ensures
        !nodes_changed(ns, ss),
{
    assert forall|i: int| 0 <= i < ns.len() implies has_code(ss, #[trigger] ns[i].code) by {
        let j = choose|j: int| 0 <= j < ss.len() && #[trigger] ss[j].code == ns[i].code;
        assert(ss[j].code == ns[i].code);
    }
}

/// Whether the nodes of a task changed since its slots were last assigned.
pub fn nodes_differ(ns: &Vec<NodeEntity>, ss: &Vec<NodeEntity>) -> (r: bool)
    ensures
        r == nodes_changed(node_views(ns@), node_views(ss@)),
        ns@.len() != ss@.len() ==> r,
        r ==> ns@.len() != ss@.len() || exists|i: int|
            #![trigger ns@[i]]
            0 <= i < ns@.len() && (forall|j: int| 0 <= j < ss@.len() ==> #[trigger] ss@[j].code@ != ns@[i].code@),
{
    let ghost nv = node_views(ns@);
    let ghost sv = node_views(ss@);
    if ns.len() != ss.len() {
        return true;
    }
    let mut i: usize = 0;
    while i < ns.len()
        invariant
            i <= ns@.len(),
            nv == node_views(ns@),
            sv == node_views(ss@),
            forall|m: int| 0 <= m < i ==> has_code(sv, #[trigger] nv[m].code),
        decreases ns@.len() - i,
    {
        assert(nv[i as int] == ns@[i as int]@);
        let mut j: usize = 0;
        let mut found = false;
        while j < ss.len()
            invariant_except_break
                !found,
            invariant
                i < ns@.len(),
                j <= ss@.len(),
                sv == node_views(ss@),
                nv[i as int] == ns@[i as int]@,
                nv.len() == ns@.len(),
                forall|m: int| 0 <= m < j ==> #[trigger] sv[m].code != nv[i as int].code,
            ensures
                found ==> has_code(sv, nv[i as int].code),
                !found ==> forall|m: int| 0 <= m < ss@.len() ==> #[trigger] sv[m].code != nv[i as int].code,
            decreases ss@.len() - j,
        {
            assert(sv[j as int] == ss@[j as int]@);
            if ns[i].code == ss[j].code {
                assert(sv[j as int].code == nv[i as int].code);
                found = true;
                break;
            }
            j = j + 1;
        }
        if !found {
            assert(!has_code(sv, nv[i as int].code));
            assert forall|j: int| 0 <= j < ss@.len() implies #[trigger] ss@[j].code@ != ns@[i as int].code@ by {
                assert(sv[j] == ss@[j]@);
                assert(sv[j].code != nv[i as int].code);
            }
            return true;
        }
        i = i + 1;
    }
    false
}

/// The slot entries that still belong to a registered node, in their order;
/// when no node is registered, nothing.
pub fn live_slot_nodes(ns: &Vec<NodeEntity>, ss: Vec<NodeEntity>) -> (r: Vec<NodeEntity>)
    ensures
        ns@.len() == 0 ==> r@.len() == 0,
        ns@.len() > 0 ==> node_views(r@) == node_views(ss@).filter(
            |x: NodeView| node_views(ns@).contains(x),
        ),
{
    let ghost nv = node_views(ns@);
    let ghost sv = node_views(ss@);
    let ghost keep = |x: NodeView| nv.contains(x);
    if ns.len() == 0 {
        return Vec::new();
    }
    let total = ss.len();
    let mut src = ss;
    let mut out: Vec<NodeEntity> = Vec::new();
    let mut k: usize = 0;
    while src.len() > 0
        invariant
            sv.len() == total,
            k + src@.len() == sv.len(),
            node_views(src@) == sv.skip(k as int),
            nv == node_views(ns@),
            keep == (|x: NodeView| nv.contains(x)),
            node_views(out@) == sv.take(k as int).filter(keep),
        decreases src@.len(),
    {
        let ghost before = src@;
        let x = src.remove(0);
        proof {
            assert(node_views(before)[0] == before[0]@);
            assert(sv.skip(k as int)[0] == sv[k as int]);
            assert forall|j: int| 0 <= j < src@.len() implies #[trigger] node_views(src@)[j]
                == sv.skip(k as int + 1)[j] by {
                assert(src@[j] == before[j + 1]);
                assert(node_views(before)[j + 1] == before[j + 1]@);
                assert(sv.skip(k as int)[j + 1] == sv[k as int + 1 + j]);
            }
            assert(node_views(src@) =~= sv.skip(k as int + 1));
            assert(sv.take(k as int + 1).drop_last() == sv.take(k as int));
            assert(sv.take(k as int + 1).last() == sv[k as int]);
            reveal(Seq::filter);
        }
        let mut m: usize = 0;
        let mut found = false;
        while m < ns.len()
            invariant_except_break
                !found,
            invariant
                m <= ns@.len(),
                nv == node_views(ns@),
                forall|q: int| 0 <= q < m ==> #[trigger] nv[q] != x@,
            ensures
                found ==> nv.contains(x@),
                !found ==> forall|q: int| 0 <= q < nv.len() ==> #[trigger] nv[q] != x@,
            decreases ns@.len() - m,
        {
            assert(nv[m as int] == ns@[m as int]@);
            if ns[m].same_record(&x) {
                assert(nv[m as int] == x@);
                found = true;
                break;
            }
            m = m + 1;
        }
        let ghost out_before = out@;
        if found {
            out.push(x);
            proof {
                assert(node_views(out@) =~= node_views(out_before).push(out@.last()@));
            }
        } else {
            assert(!nv.contains(x@));
        }
        k = k + 1;
    }
    assert(sv.take(total as int) == sv);
    out
}


/// What the inspector does once it has asked for the global lock.
#[derive(Debug, PartialEq, Eq, Structural)]
pub enum ScanAction {
    /// The lock is held: inspect every task, then release the lock and rest.
    Scan,
    /// The lock is held elsewhere, or could not be asked for: wait, then
    /// try again.
    RetryLater,
}

/// Whether the inspector keeps going: only while the server has not begun
/// to exit.
pub fn scan_continues(status: isize) -> (r: bool)
    ensures
        r == (status <= 1),
{
    status <= 1
}

/// What the inspector does with the answer to its lock request (`None` when
/// the request failed).
pub fn after_lock(granted: Option<bool>) -> (r: ScanAction)
    ensures
        r == (if granted == Some(true) {
            ScanAction::Scan
        } else {
            ScanAction::RetryLater
        }),
{
    match granted {
        Some(true) => ScanAction::Scan,
        _ => ScanAction::RetryLater,
    }
}

} // verus!

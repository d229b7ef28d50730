//! What every rebalance guarantees, whichever free slots it hands out.

use vstd::prelude::*;

use crate::entity::{NodeView, TaskSlot};
use crate::rebalance::{
    arrange, balance_defined, balance_outcome, first_with_code, has_code, join_outcome, remove_outcome, cap_of, held_tags, initial_pool, settle_prefix, settle_step, share_of,
    slot_range, spare_of, trunc_div, trunc_rem, truncate_all, truncated, wanted,
};

verus! {

/// The nodes with their slots set aside.
pub open spec fn untagged_all(nodes: Seq<NodeView>) -> Seq<NodeView> {
    nodes.map_values(|n: NodeView| n.untagged())
}

/// Facts about every node settled in a valid prefix of the second pass.
proof fn lemma_settle_prefix_nodes(
    list: Seq<NodeView>,
    res: Seq<NodeView>,
    pool0: Set<i32>,
    spare0: int,
    cap: int,
)
    requires
        settle_prefix(list, res, pool0, spare0, cap).0,
        res.len() <= list.len(),
    ensures
        forall|k: int|
            0 <= k < res.len() ==> {
                &&& #[trigger] res[k] == list[k].with_tags(res[k].tags)
                &&& res[k].tags.len() <= cap
                &&& (res[k].tags.is_prefix_of(list[k].tags) || (list[k].tags.is_prefix_of(
                    res[k].tags,
                ) && list[k].tags.len() < cap))
            },
    decreases res.len(),
{
    if res.len() > 0 {
        let k = res.len() - 1;
        let prev = settle_prefix(list, res.drop_last(), pool0, spare0, cap);
        lemma_settle_prefix_nodes(list, res.drop_last(), pool0, spare0, cap);
        let t = list[k].tags;
        let r = res[k].tags;
        let s = settle_step(t, r, prev.1, prev.2, cap);
        assert(s.0);
        if t.len() > cap {
            let idx = if prev.2 > 0 { cap } else { cap - 1 };
            assert(r == t.take(idx));
            assert(r.is_prefix_of(t));
        } else if t.len() == cap {
            if prev.2 > 0 {
                assert(r.is_prefix_of(t));
            } else if t.len() > 0 {
                assert(r == t.drop_last());
                assert(r.is_prefix_of(t));
            } else {
                assert(r.is_prefix_of(t));
            }
        } else {
            assert(r.take(t.len() as int) == t);
            assert(t.is_prefix_of(r));
        }
        assert forall|j: int| 0 <= j < res.len() - 1 implies res.drop_last()[j] == res[j] by {}
    }
}


/// A slot is held by a list of nodes exactly when one of them owns it.
pub proof fn lemma_held_tags_contains(nodes: Seq<NodeView>, a: i32)
    ensures
        held_tags(nodes).contains(a) <==> exists|i: int|
            0 <= i < nodes.len() && #[trigger] nodes[i].tags.contains(a),
    decreases nodes.len(),
{
    if nodes.len() > 0 {
        lemma_held_tags_contains(nodes.drop_last(), a);
        if held_tags(nodes.drop_last()).contains(a) {
            let i = choose|i: int| 0 <= i < nodes.drop_last().len() && #[trigger] nodes.drop_last()[i].tags.contains(a);
            assert(nodes[i].tags.contains(a));
        }
        if nodes.last().tags.contains(a) {
            assert(nodes[nodes.len() - 1].tags.contains(a));
        }
        if exists|i: int| 0 <= i < nodes.len() && #[trigger] nodes[i].tags.contains(a) {
            let i = choose|i: int| 0 <= i < nodes.len() && #[trigger] nodes[i].tags.contains(a);
            if i < nodes.len() - 1 {
                assert(nodes.drop_last()[i].tags.contains(a));
            } else {
                assert(nodes.last().tags.to_set().contains(a));
            }
        }
    }
}

/// The held slots of a list are finite.
pub proof fn lemma_held_tags_finite(nodes: Seq<NodeView>)
    ensures
        held_tags(nodes).finite(),
    decreases nodes.len(),
{
    if nodes.len() > 0 {
        lemma_held_tags_finite(nodes.drop_last());
        vstd::seq_lib::seq_to_set_is_finite(nodes.last().tags);
    }
}

/// What the first pass makes of the nodes: the same nodes, each cut to at
/// most its share, the full ones first.
proof fn lemma_arrange(nodes: Seq<NodeView>, share: int)
    ensures
        arrange(nodes, share).len() == nodes.len(),
        untagged_all(arrange(nodes, share)).to_multiset() == untagged_all(nodes).to_multiset(),
        forall|k: int|
            0 <= k < nodes.len() ==> exists|j: int|
                0 <= j < nodes.len() && #[trigger] arrange(nodes, share)[k] == truncated(
                    nodes[j],
                    share,
                ),
        share >= 0 ==> forall|k: int|
            0 <= k < nodes.len() ==> #[trigger] arrange(nodes, share)[k].tags.len() <= share,
        forall|i: int, j: int|
            #![trigger arrange(nodes, share)[i], arrange(nodes, share)[j]]
            0 <= i < j < nodes.len() && arrange(nodes, share)[j].tags.len() == share
                ==> arrange(nodes, share)[i].tags.len() == share,
        held_tags(arrange(nodes, share)) == held_tags(truncate_all(nodes, share)),
    decreases nodes.len(),
{
    let a = arrange(nodes, share);
    if nodes.len() == 0 {
        assert(untagged_all(a) =~= untagged_all(nodes));
        assert(held_tags(truncate_all(nodes, share)) == Set::<i32>::empty());
    } else {
        let d = nodes.drop_last();
        let prev = arrange(d, share);
        let t = truncated(nodes.last(), share);
        lemma_arrange(d, share);
        assert(t.untagged() == nodes.last().untagged());
        assert(untagged_all(nodes) =~= untagged_all(d).push(nodes.last().untagged()));
        if t.tags.len() == share {
            assert(a == seq![t] + prev);
            assert(a =~= prev.insert(0, t));
            assert(untagged_all(a) =~= untagged_all(prev).insert(0, t.untagged()));
            vstd::seq_lib::to_multiset_insert(untagged_all(prev), 0, t.untagged());
            vstd::seq_lib::to_multiset_build(untagged_all(d), nodes.last().untagged());
            assert forall|k: int| 0 <= k < nodes.len() implies exists|j: int|
                0 <= j < nodes.len() && #[trigger] a[k] == truncated(nodes[j], share) by {
                if k == 0 {
                    assert(a[0] == truncated(nodes[nodes.len() - 1], share));
                } else {
                    assert(a[k] == prev[k - 1]);
                    let j = choose|j: int| 0 <= j < d.len() && #[trigger] prev[k - 1] == truncated(d[j], share);
                    assert(d[j] == nodes[j]);
                }
            }
            assert forall|i: int, j: int|
                #![trigger a[i], a[j]]
                0 <= i < j < nodes.len() && a[j].tags.len() == share implies a[i].tags.len() == share by {
                if i > 0 {
                    assert(a[i] == prev[i - 1]);
                    assert(a[j] == prev[j - 1]);
                }
            }
        } else {
            assert(a == prev.push(t));
            assert(untagged_all(a) =~= untagged_all(prev).push(t.untagged()));
            vstd::seq_lib::to_multiset_build(untagged_all(prev), t.untagged());
            vstd::seq_lib::to_multiset_build(untagged_all(d), nodes.last().untagged());
            assert forall|k: int| 0 <= k < nodes.len() implies exists|j: int|
                0 <= j < nodes.len() && #[trigger] a[k] == truncated(nodes[j], share) by {
                if k == nodes.len() - 1 {
                    assert(a[k] == truncated(nodes[nodes.len() - 1], share));
                } else {
                    assert(a[k] == prev[k]);
                    let j = choose|j: int| 0 <= j < d.len() && #[trigger] prev[k] == truncated(d[j], share);
                    assert(d[j] == nodes[j]);
                }
            }
            assert forall|i: int, j: int|
                #![trigger a[i], a[j]]
                0 <= i < j < nodes.len() && a[j].tags.len() == share implies a[i].tags.len() == share by {
                assert(a[i] == prev[i]);
                if j < nodes.len() - 1 {
                    assert(a[j] == prev[j]);
                }
            }
        }
        assert forall|k: int| share >= 0 && 0 <= k < nodes.len() implies #[trigger] a[k].tags.len() <= share by {
            let j = choose|j: int| 0 <= j < nodes.len() && #[trigger] a[k] == truncated(nodes[j], share);
        }
        let ta = truncate_all(nodes, share);
        assert(ta.drop_last() =~= truncate_all(d, share));
        assert(ta.last() == t);
        assert forall|x: i32| held_tags(a).contains(x) <==> held_tags(ta).contains(x) by {
            lemma_held_tags_contains(a, x);
            lemma_held_tags_contains(prev, x);
            lemma_held_tags_contains(truncate_all(d, share), x);
            if t.tags.len() == share {
                if exists|i: int| 0 <= i < a.len() && #[trigger] a[i].tags.contains(x) {
                    let i = choose|i: int| 0 <= i < a.len() && #[trigger] a[i].tags.contains(x);
                    if i > 0 {
                        assert(prev[i - 1].tags.contains(x));
                    }
                }
                if exists|i: int| 0 <= i < prev.len() && #[trigger] prev[i].tags.contains(x) {
                    let i = choose|i: int| 0 <= i < prev.len() && #[trigger] prev[i].tags.contains(x);
                    assert(a[i + 1].tags.contains(x));
                }
                if t.tags.contains(x) {
                    assert(a[0].tags.contains(x));
                }
            } else {
                if exists|i: int| 0 <= i < a.len() && #[trigger] a[i].tags.contains(x) {
                    let i = choose|i: int| 0 <= i < a.len() && #[trigger] a[i].tags.contains(x);
                    if i < prev.len() {
                        assert(prev[i].tags.contains(x));
                    }
                }
                if exists|i: int| 0 <= i < prev.len() && #[trigger] prev[i].tags.contains(x) {
                    let i = choose|i: int| 0 <= i < prev.len() && #[trigger] prev[i].tags.contains(x);
                    assert(a[i].tags.contains(x));
                }
                if t.tags.contains(x) {
                    assert(a[a.len() - 1].tags.contains(x));
                }
            }
        }
        assert(held_tags(a) =~= held_tags(ta));
    }
}


/// The first pass and the second pass of a possible outcome, taken apart.
proof fn lemma_outcome_parts(slot: TaskSlot, nodes: Seq<NodeView>, res: Seq<NodeView>)
    requires
        balance_outcome(slot, nodes, res),
        nodes.len() > 0,
    ensures
        ({
            let n = nodes.len() as int;
            let share = share_of(slot.slot_count as int, n);
            let cap = cap_of(slot, n);
            let list = arrange(nodes, share);
            &&& 0 <= cap <= share
            &&& list.len() == n
            &&& res.len() == n
            &&& forall|k: int|
                0 <= k < n ==> {
                    &&& #[trigger] res[k] == list[k].with_tags(res[k].tags)
                    &&& res[k].tags.len() <= cap
                    &&& (res[k].tags.is_prefix_of(list[k].tags) || (list[k].tags.is_prefix_of(
                        res[k].tags,
                    ) && list[k].tags.len() < cap))
                }
        }),
{
    let n = nodes.len() as int;
    let share = share_of(slot.slot_count as int, n);
    let cap = cap_of(slot, n);
    let list = arrange(nodes, share);
    lemma_arrange(nodes, share);
    lemma_settle_prefix_nodes(
        list,
        res,
        initial_pool(nodes, slot.slot_count as int, share),
        spare_of(slot.slot_count as int, n),
        cap,
    );
    assert(res[0].tags.len() <= cap);
}

/// A rebalance hands back every node that it was given and no other: the
/// same nodes, possibly in another order, with only their slots changed.
pub proof fn law_balance_keeps_nodes(slot: TaskSlot, nodes: Seq<NodeView>, res: Seq<NodeView>)
    requires
        balance_outcome(slot, nodes, res),
    ensures
        res.len() == nodes.len(),
        untagged_all(res).to_multiset() == untagged_all(nodes).to_multiset(),
{
    if nodes.len() == 0 {
        assert(untagged_all(res) =~= untagged_all(nodes));
    } else {
        let n = nodes.len() as int;
        let share = share_of(slot.slot_count as int, n);
        let list = arrange(nodes, share);
        lemma_outcome_parts(slot, nodes, res);
        lemma_arrange(nodes, share);
        assert forall|k: int| 0 <= k < n implies #[trigger] untagged_all(res)[k] == untagged_all(
            list,
        )[k] by {
            assert(res[k] == list[k].with_tags(res[k].tags));
        }
        assert(untagged_all(res) =~= untagged_all(list));
    }
}

/// After a rebalance no node owns more slots than its share of the task
/// (the slot count divided by the number of nodes, rounded up), nor more
/// than the task's `node_max_count`.
pub proof fn law_balance_respects_cap(slot: TaskSlot, nodes: Seq<NodeView>, res: Seq<NodeView>)
    requires
        balance_outcome(slot, nodes, res),
    ensures
        forall|k: int|
            0 <= k < res.len() ==> {
                &&& #[trigger] res[k].tags.len() <= share_of(
                    slot.slot_count as int,
                    nodes.len() as int,
                )
                &&& res[k].tags.len() <= slot.node_max_count
            },
{
    if nodes.len() > 0 {
        lemma_outcome_parts(slot, nodes, res);
    }
}

/// A rebalance never takes a slot from the middle of what a node owns: every
/// node either keeps a prefix of its slots, giving back the rest, or keeps
/// all of them and receives new ones after them.
pub proof fn law_balance_keeps_slots(slot: TaskSlot, nodes: Seq<NodeView>, res: Seq<NodeView>)
    requires
        balance_outcome(slot, nodes, res),
    ensures
        forall|k: int|
            #![trigger res[k]]
            0 <= k < res.len() ==> exists|j: int|
                #![trigger nodes[j]]
                0 <= j < nodes.len() && res[k].untagged() == nodes[j].untagged() && (
                res[k].tags.is_prefix_of(nodes[j].tags) || nodes[j].tags.is_prefix_of(res[k].tags)),
{
    if nodes.len() > 0 {
        let n = nodes.len() as int;
        let share = share_of(slot.slot_count as int, n);
        let cap = cap_of(slot, n);
        let list = arrange(nodes, share);
        lemma_outcome_parts(slot, nodes, res);
        lemma_arrange(nodes, share);
        assert forall|k: int| #![trigger res[k]] 0 <= k < res.len() implies exists|j: int|
            #![trigger nodes[j]]
            0 <= j < nodes.len() && res[k].untagged() == nodes[j].untagged() && (
            res[k].tags.is_prefix_of(nodes[j].tags) || nodes[j].tags.is_prefix_of(res[k].tags)) by {
            let j = choose|j: int| 0 <= j < n && #[trigger] list[k] == truncated(nodes[j], share);
            let r = res[k].tags;
            let t = list[k].tags;
            let o = nodes[j].tags;
            assert(res[k] == list[k].with_tags(r));
            assert(t.is_prefix_of(o)) by {
                if o.len() > share {
                    assert(t == o.take(share));
                }
            }
            if r.is_prefix_of(t) {
                assert(r.is_prefix_of(o)) by {
                    assert forall|i: int| 0 <= i < r.len() implies r[i] == o[i] by {
                        assert(r[i] == t[i]);
                        assert(t[i] == o[i]);
                    }
                    assert(r =~= o.subrange(0, r.len() as int));
                }
            } else {
                assert(t.len() < cap);
                assert(o.len() <= share);
                assert(t == o);
            }
        }
    }
}


/// Every slot is owned at most once: no node lists a slot twice, and no two
/// nodes share a slot.
pub open spec fn slots_unique(nodes: Seq<NodeView>) -> bool {
    &&& forall|i: int| 0 <= i < nodes.len() ==> #[trigger] nodes[i].tags.no_duplicates()
    &&& forall|i: int, j: int, a: i32|
        #![trigger nodes[i].tags.contains(a), nodes[j].tags.contains(a)]
        0 <= i < nodes.len() && 0 <= j < nodes.len() && i != j && nodes[i].tags.contains(a)
            ==> !nodes[j].tags.contains(a)
}

/// No slot of the pool is owned by any node of `nodes`.
pub open spec fn pool_apart(pool: Set<i32>, nodes: Seq<NodeView>) -> bool {
    forall|i: int, a: i32|
        0 <= i < nodes.len() && #[trigger] nodes[i].tags.contains(a) ==> !pool.contains(a)
}

/// One node settled keeps every slot owned at most once, and the pool apart.
proof fn lemma_step_unique(
    mid: Seq<NodeView>,
    k: int,
    r: Seq<i32>,
    pool: Set<i32>,
    spare: int,
    cap: int,
)
    requires
        0 <= k < mid.len(),
        slots_unique(mid),
        pool_apart(pool, mid),
        settle_step(mid[k].tags, r, pool, spare, cap).0,
    ensures
        slots_unique(mid.update(k, mid[k].with_tags(r))),
        pool_apart(
            settle_step(mid[k].tags, r, pool, spare, cap).1,
            mid.update(k, mid[k].with_tags(r)),
        ),
{
    broadcast use vstd::seq_lib::group_seq_properties;

    let t = mid[k].tags;
    let m2 = mid.update(k, mid[k].with_tags(r));
    let pool2 = settle_step(t, r, pool, spare, cap).1;
    assert(t.no_duplicates());
    // Every slot that the node owns afterwards it owned before or took from the pool.
    assert forall|a: i32| r.contains(a) implies t.contains(a) || (pool.contains(a) && !t.contains(a)) by {
        let p = choose|p: int| 0 <= p < r.len() && r[p] == a;
        if t.len() > cap {
            let idx = if spare > 0 { cap } else { cap - 1 };
            assert(r == t.take(idx));
            assert(t[p] == a);
        } else if t.len() == cap {
            if spare > 0 {
            } else if t.len() > 0 {
                assert(r == t.drop_last());
                assert(t[p] == a);
            }
        } else {
            if p < t.len() {
                assert(r.take(t.len() as int)[p] == a);
            } else {
                let fresh = r.skip(t.len() as int);
                assert(fresh[p - t.len()] == a);
                assert(fresh.to_set().contains(a));
                if t.contains(a) {
                    let q = choose|q: int| 0 <= q < t.len() && t[q] == a;
                    assert(mid[k].tags.contains(a));
                }
            }
        }
    }
    // The node lists no slot twice.
    assert(r.no_duplicates()) by {
        assert forall|p: int, q: int| 0 <= p < q < r.len() implies r[p] != r[q] by {
            if t.len() > cap {
                let idx = if spare > 0 { cap } else { cap - 1 };
                assert(r == t.take(idx));
                assert(r[p] == t[p] && r[q] == t[q]);
            } else if t.len() == cap {
                if spare > 0 {
                } else if t.len() > 0 {
                    assert(r == t.drop_last());
                    assert(r[p] == t[p] && r[q] == t[q]);
                }
            } else {
                let fresh = r.skip(t.len() as int);
                if q < t.len() {
                    assert(r.take(t.len() as int)[p] == r[p]);
                    assert(r.take(t.len() as int)[q] == r[q]);
                } else if p < t.len() {
                    assert(r.take(t.len() as int)[p] == r[p]);
                    assert(fresh[q - t.len()] == r[q]);
                    assert(fresh.to_set().contains(r[q]));
                    assert(t.contains(r[p]));
                    assert(mid[k].tags.contains(r[p]));
                } else {
                    assert(fresh[p - t.len()] == r[p]);
                    assert(fresh[q - t.len()] == r[q]);
                }
            }
        }
    }
    assert forall|i: int| 0 <= i < m2.len() implies #[trigger] m2[i].tags.no_duplicates() by {
        if i != k {
            assert(m2[i] == mid[i]);
        }
    }
    assert forall|i: int, j: int, a: i32|
        #![trigger m2[i].tags.contains(a), m2[j].tags.contains(a)]
        0 <= i < m2.len() && 0 <= j < m2.len() && i != j && m2[i].tags.contains(a)
            implies !m2[j].tags.contains(a) by {
        if i == k {
            assert(m2[j] == mid[j]);
            if t.contains(a) {
                assert(mid[k].tags.contains(a));
                assert(!mid[j].tags.contains(a));
            } else {
                assert(pool.contains(a));
            }
        } else if j == k {
            assert(m2[i] == mid[i]);
            if m2[j].tags.contains(a) {
                if t.contains(a) {
                    assert(mid[k].tags.contains(a));
                } else {
                    assert(pool.contains(a));
                }
            }
        } else {
            assert(m2[i] == mid[i]);
            assert(m2[j] == mid[j]);
        }
    }
    // The pool after the step is apart from every node.
    assert forall|i: int, a: i32| 0 <= i < m2.len() && #[trigger] m2[i].tags.contains(a) implies !pool2.contains(
        a,
    ) by {
        if t.len() > cap {
            let idx = if spare > 0 { cap } else { cap - 1 };
            assert(pool2 == pool.union(t.skip(idx).to_set()));
            if t.skip(idx).to_set().contains(a) {
                let q = choose|q: int| 0 <= q < t.skip(idx).len() && t.skip(idx)[q] == a;
                assert(t[q + idx] == a);
                assert(mid[k].tags.contains(a));
                if i == k {
                    let p = choose|p: int| 0 <= p < r.len() && r[p] == a;
                    assert(r == t.take(idx));
                    assert(t[p] == a);
                } else {
                    assert(m2[i] == mid[i]);
                }
            }
            if i != k {
                assert(m2[i] == mid[i]);
            } else {
                assert(t.contains(a));
                assert(mid[k].tags.contains(a));
            }
        } else if t.len() == cap {
            if spare > 0 {
                if i != k {
                    assert(m2[i] == mid[i]);
                } else {
                    assert(mid[k].tags.contains(a));
                }
            } else if t.len() > 0 {
                assert(pool2 == pool.insert(t.last()));
                assert(mid[k].tags.contains(t.last()));
                if i != k {
                    assert(m2[i] == mid[i]);
                } else {
                    assert(r == t.drop_last());
                    let p = choose|p: int| 0 <= p < r.len() && r[p] == a;
                    assert(t[p] == a);
                    assert(mid[k].tags.contains(a));
                }
            } else {
                if i != k {
                    assert(m2[i] == mid[i]);
                } else {
                    assert(mid[k].tags.contains(a));
                }
            }
        } else {
            let fresh = r.skip(t.len() as int);
            assert(pool2 == pool.difference(fresh.to_set()));
            if i != k {
                assert(m2[i] == mid[i]);
            } else if t.contains(a) {
                assert(mid[k].tags.contains(a));
            } else {
                let p = choose|p: int| 0 <= p < r.len() && r[p] == a;
                if p < t.len() {
                    assert(r.take(t.len() as int)[p] == a);
                } else {
                    assert(fresh[p - t.len()] == a);
                    assert(fresh.to_set().contains(a));
                }
            }
        }
    }
}


/// Every node settled in turn keeps every slot owned at most once, and the
/// pool apart from the nodes.
proof fn lemma_settle_unique(
    list: Seq<NodeView>,
    res: Seq<NodeView>,
    pool0: Set<i32>,
    spare0: int,
    cap: int,
)
    requires
        settle_prefix(list, res, pool0, spare0, cap).0,
        res.len() <= list.len(),
        slots_unique(list),
        pool_apart(pool0, list),
    ensures
        slots_unique(res + list.skip(res.len() as int)),
        pool_apart(
            settle_prefix(list, res, pool0, spare0, cap).1,
            res + list.skip(res.len() as int),
        ),
    decreases res.len(),
{
    if res.len() == 0 {
        assert(res + list.skip(0) =~= list);
    } else {
        let k = res.len() - 1;
        let d = res.drop_last();
        let prev = settle_prefix(list, d, pool0, spare0, cap);
        lemma_settle_unique(list, d, pool0, spare0, cap);
        let mid = d + list.skip(k);
        assert(mid[k] == list[k]);
        assert(res[k] == list[k].with_tags(res[k].tags));
        lemma_step_unique(mid, k, res[k].tags, prev.1, prev.2, cap);
        assert(mid.update(k, mid[k].with_tags(res[k].tags)) =~= res + list.skip(res.len() as int));
    }
}

/// A node cut to its share still owns nothing twice.
proof fn lemma_truncated_tags(node: NodeView, share: int, a: i32)
    requires
        share >= 0,
    ensures
        truncated(node, share).tags.contains(a) ==> node.tags.contains(a),
        node.tags.no_duplicates() ==> truncated(node, share).tags.no_duplicates(),
{
    broadcast use vstd::seq_lib::group_seq_properties;

    if node.tags.len() > share {
        let t = node.tags.take(share);
        if t.contains(a) {
            let p = choose|p: int| 0 <= p < t.len() && t[p] == a;
            assert(node.tags[p] == a);
        }
        if node.tags.no_duplicates() {
            assert forall|p: int, q: int| 0 <= p < q < t.len() implies t[p] != t[q] by {
                assert(t[p] == node.tags[p] && t[q] == node.tags[q]);
            }
        }
    }
}

/// The first pass keeps every slot owned at most once, and leaves the free
/// slots apart from the nodes.
proof fn lemma_arrange_unique(nodes: Seq<NodeView>, share: int, slot_count: int)
    requires
        share >= 0,
        slots_unique(nodes),
    ensures
        slots_unique(arrange(nodes, share)),
        pool_apart(initial_pool(nodes, slot_count, share), arrange(nodes, share)),
    decreases nodes.len(),
{
    let a = arrange(nodes, share);
    lemma_arrange(nodes, share);
    if nodes.len() > 0 {
        let d = nodes.drop_last();
        let prev = arrange(d, share);
        let t = truncated(nodes.last(), share);
        let last = nodes.len() - 1;
        assert(slots_unique(d)) by {
            assert forall|i: int| 0 <= i < d.len() implies #[trigger] d[i].tags.no_duplicates() by {
                assert(d[i] == nodes[i]);
            }
            assert forall|i: int, j: int, x: i32|
                #![trigger d[i].tags.contains(x), d[j].tags.contains(x)]
                0 <= i < d.len() && 0 <= j < d.len() && i != j && d[i].tags.contains(x)
                    implies !d[j].tags.contains(x) by {
                assert(d[i] == nodes[i] && d[j] == nodes[j]);
            }
        }
        lemma_arrange_unique(d, share, slot_count);
        lemma_arrange(d, share);
        assert(nodes[last] == nodes.last());
        assert(nodes[last].tags.no_duplicates());
        lemma_truncated_tags(nodes.last(), share, 0);
        // The slots of the last node are owned by no node before it.
        assert forall|i: int, x: i32| 0 <= i < prev.len() && #[trigger] prev[i].tags.contains(x)
            implies !t.tags.contains(x) by {
            lemma_held_tags_contains(prev, x);
            lemma_held_tags_contains(truncate_all(d, share), x);
            let j = choose|j: int| 0 <= j < truncate_all(d, share).len() && #[trigger] truncate_all(d, share)[j].tags.contains(x);
            assert(truncate_all(d, share)[j] == truncated(d[j], share));
            lemma_truncated_tags(d[j], share, x);
            assert(d[j] == nodes[j]);
            assert(nodes[j].tags.contains(x));
            lemma_truncated_tags(nodes.last(), share, x);
            if t.tags.contains(x) {
                assert(nodes[last].tags.contains(x));
            }
        }
        if t.tags.len() == share {
            assert(a == seq![t] + prev);
            assert forall|i: int| 0 <= i < a.len() implies #[trigger] a[i].tags.no_duplicates() by {
                if i > 0 {
                    assert(a[i] == prev[i - 1]);
                }
            }
            assert forall|i: int, j: int, x: i32|
                #![trigger a[i].tags.contains(x), a[j].tags.contains(x)]
                0 <= i < a.len() && 0 <= j < a.len() && i != j && a[i].tags.contains(x)
                    implies !a[j].tags.contains(x) by {
                if i == 0 {
                    assert(a[j] == prev[j - 1]);
                } else if j == 0 {
                    assert(a[i] == prev[i - 1]);
                } else {
                    assert(a[i] == prev[i - 1] && a[j] == prev[j - 1]);
                }
            }
        } else {
            assert(a == prev.push(t));
            assert forall|i: int| 0 <= i < a.len() implies #[trigger] a[i].tags.no_duplicates() by {
                if i < last {
                    assert(a[i] == prev[i]);
                }
            }
            assert forall|i: int, j: int, x: i32|
                #![trigger a[i].tags.contains(x), a[j].tags.contains(x)]
                0 <= i < a.len() && 0 <= j < a.len() && i != j && a[i].tags.contains(x)
                    implies !a[j].tags.contains(x) by {
                if i == last {
                    assert(a[j] == prev[j]);
                } else if j == last {
                    assert(a[i] == prev[i]);
                } else {
                    assert(a[i] == prev[i] && a[j] == prev[j]);
                }
            }
        }
    }
    assert forall|i: int, x: i32| 0 <= i < a.len() && #[trigger] a[i].tags.contains(x)
        implies !initial_pool(nodes, slot_count, share).contains(x) by {
        lemma_held_tags_contains(a, x);
    }
}

/// A rebalance never makes two nodes share a slot: if no slot was owned
/// twice before, none is owned twice after.
pub proof fn law_balance_keeps_slots_unique(
    slot: TaskSlot,
    nodes: Seq<NodeView>,
    res: Seq<NodeView>,
)
    requires
        balance_outcome(slot, nodes, res),
        slots_unique(nodes),
    ensures
        slots_unique(res),
{
    if nodes.len() > 0 {
        let n = nodes.len() as int;
        let share = share_of(slot.slot_count as int, n);
        let list = arrange(nodes, share);
        lemma_outcome_parts(slot, nodes, res);
        lemma_arrange_unique(nodes, share, slot.slot_count as int);
        lemma_settle_unique(
            list,
            res,
            initial_pool(nodes, slot.slot_count as int, share),
            spare_of(slot.slot_count as int, n),
            cap_of(slot, n),
        );
        assert(res + list.skip(n) =~= res);
    }
}


/// How many slots the nodes own together, counted with repetition.
pub open spec fn tag_total(nodes: Seq<NodeView>) -> int
    decreases nodes.len(),
{
    if nodes.len() == 0 {
        0
    } else {
        tag_total(nodes.drop_last()) + nodes.last().tags.len()
    }
}

spec fn min_int(a: int, b: int) -> int {
    if a <= b {
        a
    } else {
        b
    }
}

proof fn lemma_total_concat(a: Seq<NodeView>, b: Seq<NodeView>)
    ensures
        tag_total(a + b) == tag_total(a) + tag_total(b),
    decreases b.len(),
{
    if b.len() == 0 {
        assert(a + b =~= a);
    } else {
        lemma_total_concat(a, b.drop_last());
        assert((a + b).drop_last() =~= a + b.drop_last());
        assert((a + b).last() == b.last());
    }
}

proof fn lemma_total_bound(nodes: Seq<NodeView>, b: int)
    requires
        b >= 0,
        forall|k: int| 0 <= k < nodes.len() ==> #[trigger] nodes[k].tags.len() <= b,
    ensures
        0 <= tag_total(nodes) <= nodes.len() * b,
    decreases nodes.len(),
{
    if nodes.len() > 0 {
        let d = nodes.drop_last();
        assert forall|k: int| 0 <= k < d.len() implies #[trigger] d[k].tags.len() <= b by {
            assert(d[k] == nodes[k]);
        }
        lemma_total_bound(d, b);
        assert(nodes.last() == nodes[nodes.len() - 1]);
        assert(d.len() * b + b == nodes.len() * b) by (nonlinear_arith)
            requires
                d.len() + 1 == nodes.len(),
        ;
    }
}

proof fn lemma_unique_drop_last(nodes: Seq<NodeView>)
    requires
        slots_unique(nodes),
        nodes.len() > 0,
    ensures
        slots_unique(nodes.drop_last()),
        nodes.last().tags.no_duplicates(),
        forall|i: int, a: i32|
            0 <= i < nodes.len() - 1 && #[trigger] nodes.drop_last()[i].tags.contains(a)
                ==> !nodes.last().tags.contains(a),
{
    let d = nodes.drop_last();
    let last = nodes.len() - 1;
    assert(nodes[last] == nodes.last());
    assert forall|i: int| 0 <= i < d.len() implies #[trigger] d[i].tags.no_duplicates() by {
        assert(d[i] == nodes[i]);
    }
    assert forall|i: int, j: int, x: i32|
        #![trigger d[i].tags.contains(x), d[j].tags.contains(x)]
        0 <= i < d.len() && 0 <= j < d.len() && i != j && d[i].tags.contains(x)
            implies !d[j].tags.contains(x) by {
        assert(d[i] == nodes[i] && d[j] == nodes[j]);
    }
    assert forall|i: int, a: i32|
        0 <= i < nodes.len() - 1 && #[trigger] d[i].tags.contains(a)
            implies !nodes.last().tags.contains(a) by {
        assert(d[i] == nodes[i]);
        assert(nodes[i].tags.contains(a));
    }
}

/// When every slot is owned at most once, the number of owned slots is the
/// sum of what the nodes own.
proof fn lemma_held_card(nodes: Seq<NodeView>)
    requires
        slots_unique(nodes),
    ensures
        held_tags(nodes).finite(),
        held_tags(nodes).len() == tag_total(nodes),
    decreases nodes.len(),
{
    lemma_held_tags_finite(nodes);
    if nodes.len() > 0 {
        let d = nodes.drop_last();
        lemma_unique_drop_last(nodes);
        lemma_held_card(d);
        let t = nodes.last().tags;
        t.unique_seq_to_set();
        vstd::seq_lib::seq_to_set_is_finite(t);
        assert(held_tags(d).disjoint(t.to_set())) by {
            assert forall|x: i32| held_tags(d).contains(x) implies !t.to_set().contains(x) by {
                lemma_held_tags_contains(d, x);
                let i = choose|i: int| 0 <= i < d.len() && #[trigger] d[i].tags.contains(x);
            }
        }
        vstd::set_lib::lemma_set_disjoint_lens(held_tags(d), t.to_set());
    }
}

/// The slots `0 .. slot_count` are `slot_count` many.
proof fn lemma_slot_range_card(slot_count: int)
    requires
        0 <= slot_count <= i32::MAX,
    ensures
        slot_range(slot_count).finite(),
        slot_range(slot_count).len() == slot_count,
    decreases slot_count,
{
    if slot_count == 0 {
        assert(slot_range(slot_count) =~= Set::<i32>::empty());
    } else {
        lemma_slot_range_card(slot_count - 1);
        assert(slot_range(slot_count - 1).insert((slot_count - 1) as i32) =~= slot_range(
            slot_count,
        ));
    }
}

/// Whether some node owns the slot `a`.
pub open spec fn slot_owned(nodes: Seq<NodeView>, a: i32) -> bool {
    exists|k: int| 0 <= k < nodes.len() && #[trigger] nodes[k].tags.contains(a)
}

/// Every slot of the range is free or owned by some node.
pub open spec fn slots_covered(pool: Set<i32>, nodes: Seq<NodeView>, slot_count: int) -> bool {
    forall|a: i32|
        0 <= a < slot_count ==> #[trigger] pool.contains(a) || exists|i: int|
            0 <= i < nodes.len() && #[trigger] nodes[i].tags.contains(a)
}

/// Settling one node loses no slot: what leaves the node goes to the pool,
/// and what leaves the pool goes to the node.
proof fn lemma_step_covers(
    mid: Seq<NodeView>,
    k: int,
    r: Seq<i32>,
    pool: Set<i32>,
    spare: int,
    cap: int,
    slot_count: int,
)
    requires
        0 <= k < mid.len(),
        slots_covered(pool, mid, slot_count),
        settle_step(mid[k].tags, r, pool, spare, cap).0,
    ensures
        slots_covered(
            settle_step(mid[k].tags, r, pool, spare, cap).1,
            mid.update(k, mid[k].with_tags(r)),
            slot_count,
        ),
{
    broadcast use vstd::seq_lib::group_seq_properties;

    let t = mid[k].tags;
    let m2 = mid.update(k, mid[k].with_tags(r));
    let pool2 = settle_step(t, r, pool, spare, cap).1;
    assert forall|a: i32| 0 <= a < slot_count implies #[trigger] pool2.contains(a) || exists|i: int|
        0 <= i < m2.len() && #[trigger] m2[i].tags.contains(a) by {
        // Where the slot was before the step.
        let was_free = pool.contains(a);
        if !was_free {
            let i = choose|i: int| 0 <= i < mid.len() && #[trigger] mid[i].tags.contains(a);
            if i != k {
                assert(m2[i] == mid[i]);
                assert(m2[i].tags.contains(a));
            } else {
                let p = choose|p: int| 0 <= p < t.len() && t[p] == a;
                if t.len() > cap {
                    let idx = if spare > 0 { cap } else { cap - 1 };
                    if p < idx {
                        assert(r[p] == a);
                        assert(m2[k].tags.contains(a));
                    } else {
                        assert(t.skip(idx)[p - idx] == a);
                        assert(t.skip(idx).to_set().contains(a));
                    }
                } else if t.len() == cap {
                    if spare > 0 {
                        assert(m2[k].tags.contains(a));
                    } else if t.len() > 0 {
                        if p < t.len() - 1 {
                            assert(r[p] == a);
                            assert(m2[k].tags.contains(a));
                        } else {
                            assert(t.last() == a);
                        }
                    } else {
                    }
                } else {
                    assert(r.take(t.len() as int)[p] == a);
                    assert(r[p] == a);
                    assert(m2[k].tags.contains(a));
                }
            }
        } else {
            if t.len() < cap {
                let fresh = r.skip(t.len() as int);
                if fresh.to_set().contains(a) {
                    let q = choose|q: int| 0 <= q < fresh.len() && fresh[q] == a;
                    assert(r[q + t.len()] == a);
                    assert(m2[k].tags.contains(a));
                }
            }
        }
    }
}

/// Settling every node in turn loses no slot.
proof fn lemma_settle_covers(
    list: Seq<NodeView>,
    res: Seq<NodeView>,
    pool0: Set<i32>,
    spare0: int,
    cap: int,
    slot_count: int,
)
    requires
        settle_prefix(list, res, pool0, spare0, cap).0,
        res.len() <= list.len(),
        slots_covered(pool0, list, slot_count),
    ensures
        slots_covered(
            settle_prefix(list, res, pool0, spare0, cap).1,
            res + list.skip(res.len() as int),
            slot_count,
        ),
    decreases res.len(),
{
    if res.len() == 0 {
        assert(res + list.skip(0) =~= list);
    } else {
        let k = res.len() - 1;
        let d = res.drop_last();
        let prev = settle_prefix(list, d, pool0, spare0, cap);
        lemma_settle_covers(list, d, pool0, spare0, cap, slot_count);
        let mid = d + list.skip(k);
        assert(mid[k] == list[k]);
        assert(res[k] == list[k].with_tags(res[k].tags));
        lemma_step_covers(mid, k, res[k].tags, prev.1, prev.2, cap, slot_count);
        assert(mid.update(k, mid[k].with_tags(res[k].tags)) =~= res + list.skip(res.len() as int));
    }
}

/// One node settled, counted: the free slots and the slots still owned by
/// the nodes not yet settled never exceed what those nodes may still take.
proof fn lemma_step_count(
    mid: Seq<NodeView>,
    k: int,
    r: Seq<i32>,
    pool: Set<i32>,
    spare: int,
    e: int,
    m: int,
    rest: int,
)
    requires
        0 <= k < mid.len(),
        slots_unique(mid),
        pool_apart(pool, mid),
        pool.finite(),
        settle_step(mid[k].tags, r, pool, spare, e).0,
        e >= 1,
        spare >= 0,
        m >= 1,
        rest >= 0,
        mid[k].tags.len() <= e,
        pool.len() + mid[k].tags.len() + rest <= m * (e - 1) + min_int(spare, m),
        mid[k].tags.len() < e ==> rest <= (m - 1) * (e - 1),
    ensures
        ({
            let st = settle_step(mid[k].tags, r, pool, spare, e);
            &&& st.1.finite()
            &&& st.2 >= 0
            &&& st.1.len() + rest <= (m - 1) * (e - 1) + min_int(st.2, m - 1)
        }),
{
    let t = mid[k].tags;
    let st = settle_step(t, r, pool, spare, e);
    assert(m * (e - 1) == (m - 1) * (e - 1) + (e - 1)) by (nonlinear_arith);
    assert((m - 1) * (e - 1) >= 0) by (nonlinear_arith)
        requires
            m >= 1,
            e >= 1,
    ;
    if t.len() == e {
        if spare > 0 {
        } else {
            assert(t.len() > 0);
            assert(mid[k].tags.contains(t.last())) by {
                assert(t[t.len() - 1] == t.last());
            }
            assert(!pool.contains(t.last()));
        }
    } else {
        let need = wanted(t.len() as int, spare, e);
        let fresh = r.skip(t.len() as int);
        fresh.unique_seq_to_set();
        vstd::seq_lib::seq_to_set_is_finite(fresh);
        assert(fresh.to_set().subset_of(pool));
        assert(pool.intersect(fresh.to_set()) =~= fresh.to_set());
        vstd::set_lib::lemma_set_difference_len(pool, fresh.to_set());
        if need <= pool.len() {
            assert(fresh.len() == need);
        } else {
            assert(fresh.len() == pool.len());
        }
    }
}

/// The second pass, counted: see [`lemma_step_count`].
proof fn lemma_settle_count(
    list: Seq<NodeView>,
    res: Seq<NodeView>,
    pool0: Set<i32>,
    spare0: int,
    e: int,
)
    requires
        settle_prefix(list, res, pool0, spare0, e).0,
        res.len() <= list.len(),
        slots_unique(list),
        pool_apart(pool0, list),
        pool0.finite(),
        e >= 1,
        spare0 >= 0,
        forall|k: int| 0 <= k < list.len() ==> #[trigger] list[k].tags.len() <= e,
        forall|i: int, j: int|
            #![trigger list[i], list[j]]
            0 <= i < j < list.len() && list[j].tags.len() == e ==> list[i].tags.len() == e,
        pool0.len() + tag_total(list) <= list.len() * (e - 1) + min_int(spare0, list.len() as int),
    ensures
        ({
            let st = settle_prefix(list, res, pool0, spare0, e);
            let k = res.len() as int;
            let n = list.len() as int;
            &&& st.1.finite()
            &&& st.2 >= 0
            &&& st.1.len() + tag_total(list.skip(k)) <= (n - k) * (e - 1) + min_int(st.2, n - k)
        }),
    decreases res.len(),
{
    let n = list.len() as int;
    if res.len() == 0 {
        assert(list.skip(0) =~= list);
    } else {
        let k = res.len() - 1;
        let d = res.drop_last();
        let prev = settle_prefix(list, d, pool0, spare0, e);
        lemma_settle_count(list, d, pool0, spare0, e);
        lemma_settle_unique(list, d, pool0, spare0, e);
        let mid = d + list.skip(k);
        assert(mid[k] == list[k]);
        assert(res[k] == list[k].with_tags(res[k].tags));
        let later = list.skip(k + 1);
        assert(list.skip(k) =~= seq![list[k]] + later);
        lemma_total_concat(seq![list[k]], later);
        assert(tag_total(seq![list[k]]) == list[k].tags.len()) by {
            assert(seq![list[k]].drop_last() =~= Seq::<NodeView>::empty());
            assert(tag_total(Seq::<NodeView>::empty()) == 0);
            assert(seq![list[k]].last() == list[k]);
        }
        if list[k].tags.len() < e {
            assert forall|j: int| 0 <= j < later.len() implies #[trigger] later[j].tags.len() <= e - 1 by {
                assert(later[j] == list[k + 1 + j]);
                assert(list[k + 1 + j].tags.len() <= e);
                if list[k + 1 + j].tags.len() == e {
                    assert(list[k].tags.len() == e);
                }
            }
            lemma_total_bound(later, e - 1);
        } else {
            lemma_total_bound(later, e);
        }
        lemma_step_count(mid, k, res[k].tags, prev.1, prev.2, e, n - k, tag_total(later));
    }
}

/// With every slot owned at most once and inside `0 .. slot_count`, and a
/// task that lets every node own its full share, a rebalance leaves no slot
/// without an owner. (With a smaller `node_max_count` some slots may stay
/// free: the nodes then cannot hold them all.)
pub proof fn law_balance_covers_slots(slot: TaskSlot, nodes: Seq<NodeView>, res: Seq<NodeView>)
    requires
        balance_outcome(slot, nodes, res),
        nodes.len() > 0,
        slots_unique(nodes),
        forall|i: int, a: i32|
            0 <= i < nodes.len() && #[trigger] nodes[i].tags.contains(a) ==> 0 <= a
                < slot.slot_count,
        slot.node_max_count >= share_of(slot.slot_count as int, nodes.len() as int),
    ensures
        forall|a: i32| 0 <= a < slot.slot_count ==> #[trigger] slot_owned(res, a),
{
    let sc = slot.slot_count as int;
    let n = nodes.len() as int;
    let e = share_of(sc, n);
    let cap = cap_of(slot, n);
    let s0 = spare_of(sc, n);
    let list = arrange(nodes, e);
    let pool0 = initial_pool(nodes, sc, e);
    if sc > 0 {
        lemma_outcome_parts(slot, nodes, res);
        lemma_arrange(nodes, e);
        lemma_arrange_unique(nodes, e, sc);
        assert(cap == e);
        // The layout's arithmetic: n * (share - 1) + spare == slot_count.
        let q = sc / n;
        let rm = sc % n;
        assert(sc == n * q + rm && 0 <= rm < n && q >= 0) by (nonlinear_arith)
            requires
                sc > 0,
                n > 0,
                q == sc / n,
                rm == sc % n,
        ;
        assert(trunc_div(sc, n) == q && trunc_rem(sc, n) == rm);
        if rm != 0 {
            assert(e == q + 1 && s0 == rm);
        } else {
            assert(e == q && s0 == n);
            assert(q >= 1) by (nonlinear_arith)
                requires
                    sc == n * q + rm,
                    rm == 0,
                    sc > 0,
                    n > 0,
                    q >= 0,
            ;
            assert(n * (e - 1) + n == n * e) by (nonlinear_arith);
        }
        assert(n * (e - 1) + min_int(s0, n) == sc);
        // The free slots at the start are those that nobody owns.
        let h = held_tags(list);
        lemma_held_card(list);
        lemma_slot_range_card(sc);
        assert(h.subset_of(slot_range(sc))) by {
            assert forall|x: i32| h.contains(x) implies slot_range(sc).contains(x) by {
                lemma_held_tags_contains(list, x);
                let k = choose|k: int| 0 <= k < list.len() && #[trigger] list[k].tags.contains(x);
                let j = choose|j: int| 0 <= j < n && #[trigger] list[k] == truncated(nodes[j], e);
                lemma_truncated_tags(nodes[j], e, x);
            }
        }
        assert(pool0 == slot_range(sc).difference(h));
        assert(slot_range(sc).intersect(h) =~= h);
        vstd::set_lib::lemma_set_difference_len(slot_range(sc), h);
        vstd::set_lib::lemma_len_difference(slot_range(sc), h);
        assert(pool0.finite());
        assert(pool0.len() + tag_total(list) == sc);
        // Counting: at the end no slot is left free.
        lemma_settle_count(list, res, pool0, s0, e);
        let st = settle_prefix(list, res, pool0, s0, e);
        assert(list.skip(n) =~= Seq::<NodeView>::empty());
        assert(tag_total(list.skip(n)) == 0);
        assert(res.len() == n);
        assert((n - res.len()) * (e - 1) == 0) by (nonlinear_arith)
            requires
                res.len() == n,
        ;
        assert(st.1.len() == 0);
        vstd::set_lib::lemma_set_empty_equivalency_len(st.1);
        // And no slot is lost on the way.
        assert(slots_covered(pool0, list, sc)) by {
            assert forall|a: i32| 0 <= a < sc implies #[trigger] pool0.contains(a) || exists|i: int|
                0 <= i < list.len() && #[trigger] list[i].tags.contains(a) by {
                lemma_held_tags_contains(list, a);
                assert(slot_range(sc).contains(a));
            }
        }
        lemma_settle_covers(list, res, pool0, s0, e, sc);
        assert(res + list.skip(n) =~= res);
        assert forall|a: i32| 0 <= a < slot.slot_count implies #[trigger] slot_owned(res, a) by {
            assert(!st.1.contains(a));
        }
    }
}


/// No two nodes carry the same code.
pub open spec fn codes_unique(nodes: Seq<NodeView>) -> bool {
    forall|i: int, j: int|
        #![trigger nodes[i], nodes[j]]
        0 <= i < nodes.len() && 0 <= j < nodes.len() && i != j ==> nodes[i].code != nodes[j].code
}

/// A node that has joined is part of the task: a second join of the same
/// node changes nothing.
pub proof fn law_join_then_member(
    slot: TaskSlot,
    nodes: Seq<NodeView>,
    des: NodeView,
    res: Seq<NodeView>,
)
    requires
        !has_code(nodes, des.code),
        balance_outcome(slot, nodes.push(des), res),
    ensures
        has_code(res, des.code),
{
    broadcast use vstd::seq_lib::group_to_multiset_ensures;

    let all = nodes.push(des);
    law_balance_keeps_nodes(slot, all, res);
    assert(untagged_all(all)[nodes.len() as int] == des.untagged());
    assert(untagged_all(all).contains(des.untagged()));
    assert(untagged_all(all).to_multiset().count(des.untagged()) > 0);
    assert(untagged_all(res).contains(des.untagged()));
    let k = choose|k: int| 0 <= k < untagged_all(res).len() && untagged_all(res)[k] == des.untagged();
    assert(res[k].untagged() == des.untagged());
    assert(res[k].code == des.code);
}

/// A node that has left is no longer part of the task, as long as no two
/// nodes carried its code.
pub proof fn law_remove_then_absent(
    slot: TaskSlot,
    nodes: Seq<NodeView>,
    code: Seq<char>,
    i: int,
    res: Seq<NodeView>,
)
    requires
        codes_unique(nodes),
        first_with_code(nodes, code, i),
        balance_outcome(slot, nodes.remove(i), res),
    ensures
        !has_code(res, code),
{
    broadcast use vstd::seq_lib::group_to_multiset_ensures;

    let rest = nodes.remove(i);
    law_balance_keeps_nodes(slot, rest, res);
    if has_code(res, code) {
        let k = choose|k: int| 0 <= k < res.len() && #[trigger] res[k].code == code;
        assert(untagged_all(res)[k] == res[k].untagged());
        assert(untagged_all(res).contains(res[k].untagged()));
        assert(untagged_all(res).to_multiset().count(res[k].untagged()) > 0);
        assert(untagged_all(rest).contains(res[k].untagged()));
        let j = choose|j: int| 0 <= j < untagged_all(rest).len() && untagged_all(rest)[j] == res[k].untagged();
        assert(rest[j].untagged() == res[k].untagged());
        if j < i {
            assert(rest[j] == nodes[j]);
            assert(nodes[j].code == code);
        } else {
            assert(rest[j] == nodes[j + 1]);
            assert(nodes[j + 1].code == nodes[i].code);
        }
    }
}


/// After a node joins, every entry found under its code is that node:
/// asking for the slots of its code gives the slots it was just assigned.
pub proof fn law_join_then_found(
    slot: TaskSlot,
    nodes: Seq<NodeView>,
    des: NodeView,
    res: Seq<NodeView>,
)
    requires
        !has_code(nodes, des.code),
        balance_outcome(slot, nodes.push(des), res),
    ensures
        has_code(res, des.code),
        forall|k: int|
            0 <= k < res.len() && #[trigger] res[k].code == des.code ==> res[k].untagged()
                == des.untagged(),
{
    broadcast use vstd::seq_lib::group_to_multiset_ensures;

    law_join_then_member(slot, nodes, des, res);
    let all = nodes.push(des);
    law_balance_keeps_nodes(slot, all, res);
    assert forall|k: int|
        0 <= k < res.len() && #[trigger] res[k].code == des.code implies res[k].untagged()
            == des.untagged() by {
        assert(untagged_all(res)[k] == res[k].untagged());
        assert(untagged_all(res).contains(res[k].untagged()));
        assert(untagged_all(res).to_multiset().count(res[k].untagged()) > 0);
        assert(untagged_all(all).contains(res[k].untagged()));
        let j = choose|j: int| 0 <= j < untagged_all(all).len() && untagged_all(all)[j] == res[k].untagged();
        assert(all[j].untagged() == res[k].untagged());
        if j < nodes.len() {
            assert(all[j] == nodes[j]);
            assert(nodes[j].code == des.code);
        } else {
            assert(all[j] == des);
        }
    }
}


/// How many slots a node owns after it is settled, from how many it owned,
/// how many slots were free and the spare count.
spec fn settled_len(tl: int, pl: int, spare: int, cap: int) -> int {
    if tl > cap {
        if spare > 0 {
            cap
        } else {
            cap - 1
        }
    } else if tl == cap {
        if spare > 0 {
            tl
        } else if tl > 0 {
            tl - 1
        } else {
            tl
        }
    } else {
        let need = wanted(tl, spare, cap);
        tl + if need <= pl {
            need
        } else {
            pl
        }
    }
}

/// How many slots are free after a node is settled.
spec fn settled_pool_len(tl: int, pl: int, spare: int, cap: int) -> int {
    if tl > cap {
        pl + tl - (if spare > 0 {
            cap
        } else {
            cap - 1
        })
    } else if tl == cap {
        if spare > 0 {
            pl
        } else if tl > 0 {
            pl + 1
        } else {
            pl
        }
    } else {
        let need = wanted(tl, spare, cap);
        pl - if need <= pl {
            need
        } else {
            pl
        }
    }
}

/// Settling one node that owns its slots once, none of them free: how many
/// slots it owns afterwards, how many are free and the spare count depend
/// only on how many it owned, how many were free and the spare count.
proof fn lemma_step_sizes(t: Seq<i32>, r: Seq<i32>, pool: Set<i32>, spare: int, cap: int)
    requires
        t.no_duplicates(),
        pool.finite(),
        forall|a: i32| t.contains(a) ==> !pool.contains(a),
        settle_step(t, r, pool, spare, cap).0,
    ensures
        ({
            let st = settle_step(t, r, pool, spare, cap);
            &&& r.len() == settled_len(t.len() as int, pool.len() as int, spare, cap)
            &&& st.1.finite()
            &&& st.1.len() == settled_pool_len(t.len() as int, pool.len() as int, spare, cap)
        }),
{
    broadcast use vstd::seq_lib::group_seq_properties;

    let st = settle_step(t, r, pool, spare, cap);
    if t.len() > cap {
        let idx = if spare > 0 { cap } else { cap - 1 };
        let rel = t.skip(idx);
        assert forall|p: int, q: int| 0 <= p < q < rel.len() implies rel[p] != rel[q] by {
            assert(rel[p] == t[p + idx] && rel[q] == t[q + idx]);
        }
        rel.unique_seq_to_set();
        vstd::seq_lib::seq_to_set_is_finite(rel);
        assert(pool.disjoint(rel.to_set())) by {
            assert forall|a: i32| pool.contains(a) implies !rel.to_set().contains(a) by {
                if rel.to_set().contains(a) {
                    let q = choose|q: int| 0 <= q < rel.len() && rel[q] == a;
                    assert(t[q + idx] == a);
                    assert(t.contains(a));
                }
            }
        }
        vstd::set_lib::lemma_set_disjoint_lens(pool, rel.to_set());
    } else if t.len() == cap {
        if spare <= 0 && t.len() > 0 {
            assert(t[t.len() - 1] == t.last());
            assert(t.contains(t.last()));
        }
    } else {
        let fresh = r.skip(t.len() as int);
        fresh.unique_seq_to_set();
        vstd::seq_lib::seq_to_set_is_finite(fresh);
        assert(pool.intersect(fresh.to_set()) =~= fresh.to_set());
        vstd::set_lib::lemma_set_difference_len(pool, fresh.to_set());
    }
}

/// Two second passes over the same nodes agree on every count.
proof fn lemma_settle_sizes(
    list: Seq<NodeView>,
    res1: Seq<NodeView>,
    res2: Seq<NodeView>,
    pool0: Set<i32>,
    spare0: int,
    cap: int,
)
    requires
        settle_prefix(list, res1, pool0, spare0, cap).0,
        settle_prefix(list, res2, pool0, spare0, cap).0,
        res1.len() == res2.len(),
        res1.len() <= list.len(),
        slots_unique(list),
        pool_apart(pool0, list),
        pool0.finite(),
    ensures
        ({
            let st1 = settle_prefix(list, res1, pool0, spare0, cap);
            let st2 = settle_prefix(list, res2, pool0, spare0, cap);
            &&& st1.1.finite()
            &&& st2.1.finite()
            &&& st1.1.len() == st2.1.len()
            &&& st1.2 == st2.2
        }),
        forall|k: int| 0 <= k < res1.len() ==> #[trigger] res1[k].tags.len() == res2[k].tags.len(),
    decreases res1.len(),
{
    if res1.len() > 0 {
        let k = res1.len() - 1;
        let d1 = res1.drop_last();
        let d2 = res2.drop_last();
        lemma_settle_sizes(list, d1, d2, pool0, spare0, cap);
        let p1 = settle_prefix(list, d1, pool0, spare0, cap);
        let p2 = settle_prefix(list, d2, pool0, spare0, cap);
        lemma_settle_unique(list, d1, pool0, spare0, cap);
        lemma_settle_unique(list, d2, pool0, spare0, cap);
        let m1 = d1 + list.skip(k);
        let m2 = d2 + list.skip(k);
        assert(m1[k] == list[k]);
        assert(m2[k] == list[k]);
        let t = list[k].tags;
        assert(t.no_duplicates());
        assert forall|a: i32| t.contains(a) implies !p1.1.contains(a) by {
            assert(m1[k].tags.contains(a));
        }
        assert forall|a: i32| t.contains(a) implies !p2.1.contains(a) by {
            assert(m2[k].tags.contains(a));
        }
        lemma_step_sizes(t, res1[k].tags, p1.1, p1.2, cap);
        lemma_step_sizes(t, res2[k].tags, p2.1, p2.2, cap);
        assert forall|j: int| 0 <= j < res1.len() implies #[trigger] res1[j].tags.len()
            == res2[j].tags.len() by {
            if j < k {
                assert(d1[j] == res1[j] && d2[j] == res2[j]);
            }
        }
    }
}

/// Which free slots a rebalance hands out follows the iteration order of a
/// hash set, but nothing else does: when no slot is owned twice, any two
/// rebalances of the same nodes list them in the same order, each with the
/// same number of slots, and agree on the slots that each keeps of its own.
pub proof fn law_balance_counts_fixed(
    slot: TaskSlot,
    nodes: Seq<NodeView>,
    res1: Seq<NodeView>,
    res2: Seq<NodeView>,
)
    requires
        balance_outcome(slot, nodes, res1),
        balance_outcome(slot, nodes, res2),
        slots_unique(nodes),
    ensures
        res1.len() == res2.len(),
        forall|k: int|
            0 <= k < res1.len() ==> {
                &&& #[trigger] res1[k].untagged() == res2[k].untagged()
                &&& res1[k].tags.len() == res2[k].tags.len()
                &&& res1[k].tags.take(own_part(slot, nodes, res1[k], k)) == res2[k].tags.take(
                    own_part(slot, nodes, res1[k], k),
                )
            },
{
    if nodes.len() > 0 {
        let n = nodes.len() as int;
        let share = share_of(slot.slot_count as int, n);
        let cap = cap_of(slot, n);
        let list = arrange(nodes, share);
        let pool0 = initial_pool(nodes, slot.slot_count as int, share);
        lemma_outcome_parts(slot, nodes, res1);
        lemma_outcome_parts(slot, nodes, res2);
        lemma_arrange(nodes, share);
        lemma_arrange_unique(nodes, share, slot.slot_count as int);
        let top = if slot.slot_count >= 0 {
            slot.slot_count as int
        } else {
            0
        };
        lemma_slot_range_card(top);
        assert(pool0.subset_of(slot_range(top)));
        vstd::set_lib::lemma_set_subset_finite(slot_range(top), pool0);
        lemma_settle_sizes(list, res1, res2, pool0, spare_of(slot.slot_count as int, n), cap);
        assert forall|k: int| 0 <= k < res1.len() implies {
            &&& #[trigger] res1[k].untagged() == res2[k].untagged()
            &&& res1[k].tags.len() == res2[k].tags.len()
            &&& res1[k].tags.take(own_part(slot, nodes, res1[k], k)) == res2[k].tags.take(
                own_part(slot, nodes, res1[k], k),
            )
        } by {
            assert(res1[k] == list[k].with_tags(res1[k].tags));
            assert(res2[k] == list[k].with_tags(res2[k].tags));
            let t = list[k].tags;
            let r1 = res1[k].tags;
            let r2 = res2[k].tags;
            let m = own_part(slot, nodes, res1[k], k);
            if r1.is_prefix_of(t) && r2.is_prefix_of(t) {
                assert(r1 =~= t.subrange(0, r1.len() as int));
                assert(r2 =~= t.subrange(0, r2.len() as int));
                assert(r1 =~= r2);
            } else if t.is_prefix_of(r1) && t.is_prefix_of(r2) {
                assert(m == t.len());
                assert(r1.take(m) =~= t);
                assert(r2.take(m) =~= t);
            } else if t.is_prefix_of(r1) {
                assert(r2.is_prefix_of(t));
                assert(r2.len() <= t.len());
                assert(r2 =~= t.subrange(0, r2.len() as int));
                assert(r1.take(t.len() as int) =~= t);
                assert(r1 =~= r2);
            } else {
                assert(r1.is_prefix_of(t));
                assert(t.is_prefix_of(r2));
                assert(r1.len() <= t.len());
                assert(r1 =~= t.subrange(0, r1.len() as int));
                assert(r2.take(t.len() as int) =~= t);
                assert(r1 =~= r2);
            }
        }
    }
}

/// How many of its slots the node at position `k` of a rebalance still
/// owns after the first pass.
pub open spec fn nodes_kept(slot: TaskSlot, nodes: Seq<NodeView>, k: int) -> int {
    arrange(nodes, share_of(slot.slot_count as int, nodes.len() as int))[k].tags.len() as int
}

/// The part of the slots of `r`, at position `k` of a rebalance, that comes
/// from the node's own slots.
pub open spec fn own_part(slot: TaskSlot, nodes: Seq<NodeView>, r: NodeView, k: int) -> int {
    if r.tags.len() <= nodes_kept(slot, nodes, k) {
        r.tags.len() as int
    } else {
        nodes_kept(slot, nodes, k)
    }
}


/// Where some node carries a code, a first one does.
proof fn lemma_first_with_code_exists(nodes: Seq<NodeView>, code: Seq<char>)
    requires
        has_code(nodes, code),
    ensures
        exists|i: int| first_with_code(nodes, code, i),
    decreases nodes.len(),
{
    let d = nodes.drop_last();
    if has_code(d, code) {
        lemma_first_with_code_exists(d, code);
        let i = choose|i: int| first_with_code(d, code, i);
        assert forall|j: int| 0 <= j < i implies #[trigger] nodes[j].code != code by {
            assert(d[j] == nodes[j]);
        }
        assert(d[i] == nodes[i]);
        assert(first_with_code(nodes, code, i));
    } else {
        let k = choose|k: int| 0 <= k < nodes.len() && #[trigger] nodes[k].code == code;
        if k < nodes.len() - 1 {
            assert(d[k] == nodes[k]);
        }
        assert forall|j: int| 0 <= j < nodes.len() - 1 implies #[trigger] nodes[j].code != code by {
            assert(d[j] == nodes[j]);
        }
        assert(first_with_code(nodes, code, nodes.len() - 1));
    }
}

/// Joining twice is joining once: the second join of the same node returns
/// what the first one gave.
pub proof fn law_join_idempotent(
    slot: TaskSlot,
    nodes: Seq<NodeView>,
    des: NodeView,
    r1: Seq<NodeView>,
    r2: Seq<NodeView>,
)
    requires
        join_outcome(slot, nodes, des, r1),
        join_outcome(slot, r1, des, r2),
    ensures
        r2 == r1,
{
    if !has_code(nodes, des.code) {
        law_join_then_member(slot, nodes, des, r1);
    }
}

/// A node that joins and then leaves leaves the task with the nodes it had
/// before: the same nodes, whose slots may have moved.
pub proof fn law_remove_undoes_join(
    slot: TaskSlot,
    nodes: Seq<NodeView>,
    des: NodeView,
    r1: Seq<NodeView>,
    r2: Seq<NodeView>,
)
    requires
        !has_code(nodes, des.code),
        join_outcome(slot, nodes, des, r1),
        remove_outcome(slot, r1, des.code, r2),
    ensures
        untagged_all(r2).to_multiset() == untagged_all(nodes).to_multiset(),
{
    broadcast use vstd::seq_lib::group_to_multiset_ensures;

    law_join_then_found(slot, nodes, des, r1);
    law_balance_keeps_nodes(slot, nodes.push(des), r1);
    lemma_first_with_code_exists(r1, des.code);
    let i = choose|i: int| first_with_code(r1, des.code, i);
    let rest = r1.remove(i);
    assert(balance_outcome(slot, rest, r2));
    law_balance_keeps_nodes(slot, rest, r2);
    assert(r1[i].untagged() == des.untagged());
    assert(untagged_all(rest) =~= untagged_all(r1).remove(i));
    assert(untagged_all(r1)[i] == des.untagged());
    assert(untagged_all(nodes.push(des)) =~= untagged_all(nodes).push(des.untagged()));
    assert(untagged_all(rest).to_multiset() =~= untagged_all(nodes).to_multiset());
}


/// Every slot that the nodes own lies in `0 .. slot_count`.
pub open spec fn tags_within(nodes: Seq<NodeView>, slot_count: int) -> bool {
    forall|i: int, a: i32|
        0 <= i < nodes.len() && #[trigger] nodes[i].tags.contains(a) ==> 0 <= a < slot_count
}

/// Every slot of the pool lies in `0 .. slot_count`.
spec fn pool_within(pool: Set<i32>, slot_count: int) -> bool {
    forall|a: i32| #[trigger] pool.contains(a) ==> 0 <= a < slot_count
}

/// Settling one node moves slots only between the node and the pool.
proof fn lemma_step_within(
    mid: Seq<NodeView>,
    k: int,
    r: Seq<i32>,
    pool: Set<i32>,
    spare: int,
    cap: int,
    slot_count: int,
)
    requires
        0 <= k < mid.len(),
        tags_within(mid, slot_count),
        pool_within(pool, slot_count),
        settle_step(mid[k].tags, r, pool, spare, cap).0,
    ensures
        tags_within(mid.update(k, mid[k].with_tags(r)), slot_count),
        pool_within(settle_step(mid[k].tags, r, pool, spare, cap).1, slot_count),
{
    broadcast use vstd::seq_lib::group_seq_properties;

    let t = mid[k].tags;
    let m2 = mid.update(k, mid[k].with_tags(r));
    let pool2 = settle_step(t, r, pool, spare, cap).1;
    assert forall|a: i32| t.contains(a) implies 0 <= a < slot_count by {
        assert(mid[k].tags.contains(a));
    }
    assert forall|i: int, a: i32| 0 <= i < m2.len() && #[trigger] m2[i].tags.contains(a)
        implies 0 <= a < slot_count by {
        if i != k {
            assert(m2[i] == mid[i]);
        } else {
            let p = choose|p: int| 0 <= p < r.len() && r[p] == a;
            if t.len() > cap {
                let idx = if spare > 0 { cap } else { cap - 1 };
                assert(r == t.take(idx));
                assert(t[p] == a);
                assert(t.contains(a));
            } else if t.len() == cap {
                if spare > 0 {
                    assert(t[p] == a);
                    assert(t.contains(a));
                } else if t.len() > 0 {
                    assert(r == t.drop_last());
                    assert(t[p] == a);
                    assert(t.contains(a));
                } else {
                    assert(t[p] == a);
                    assert(t.contains(a));
                }
            } else if p < t.len() {
                assert(r.take(t.len() as int)[p] == a);
                assert(t[p] == a);
                assert(t.contains(a));
            } else {
                let fresh = r.skip(t.len() as int);
                assert(fresh[p - t.len()] == a);
                assert(fresh.to_set().contains(a));
                assert(pool.contains(a));
            }
        }
    }
    assert forall|a: i32| #[trigger] pool2.contains(a) implies 0 <= a < slot_count by {
        if t.len() > cap {
            let idx = if spare > 0 { cap } else { cap - 1 };
            if t.skip(idx).to_set().contains(a) {
                let q = choose|q: int| 0 <= q < t.skip(idx).len() && t.skip(idx)[q] == a;
                assert(t[q + idx] == a);
                assert(t.contains(a));
            } else {
                assert(pool.contains(a));
            }
        } else if t.len() == cap {
            if spare <= 0 && t.len() > 0 && a == t.last() {
                assert(t[t.len() - 1] == a);
                assert(t.contains(a));
            } else {
                assert(pool.contains(a));
            }
        } else {
            assert(pool.contains(a));
        }
    }
}

/// Settling every node in turn moves slots only between the nodes and the
/// pool.
proof fn lemma_settle_within(
    list: Seq<NodeView>,
    res: Seq<NodeView>,
    pool0: Set<i32>,
    spare0: int,
    cap: int,
    slot_count: int,
)
    requires
        settle_prefix(list, res, pool0, spare0, cap).0,
        res.len() <= list.len(),
        tags_within(list, slot_count),
        pool_within(pool0, slot_count),
    ensures
        tags_within(res + list.skip(res.len() as int), slot_count),
        pool_within(settle_prefix(list, res, pool0, spare0, cap).1, slot_count),
    decreases res.len(),
{
    if res.len() == 0 {
        assert(res + list.skip(0) =~= list);
    } else {
        let k = res.len() - 1;
        let d = res.drop_last();
        let prev = settle_prefix(list, d, pool0, spare0, cap);
        lemma_settle_within(list, d, pool0, spare0, cap, slot_count);
        let mid = d + list.skip(k);
        assert(mid[k] == list[k]);
        assert(res[k] == list[k].with_tags(res[k].tags));
        lemma_step_within(mid, k, res[k].tags, prev.1, prev.2, cap, slot_count);
        assert(mid.update(k, mid[k].with_tags(res[k].tags)) =~= res + list.skip(res.len() as int));
    }
}

/// A rebalance hands out no slot outside the task: when every slot that the
/// nodes own lies in `0 .. slot_count`, so does every slot after it.
pub proof fn law_balance_stays_in_range(slot: TaskSlot, nodes: Seq<NodeView>, res: Seq<NodeView>)
    requires
        balance_outcome(slot, nodes, res),
        tags_within(nodes, slot.slot_count as int),
    ensures
        tags_within(res, slot.slot_count as int),
{
    if nodes.len() > 0 {
        let sc = slot.slot_count as int;
        let n = nodes.len() as int;
        let share = share_of(sc, n);
        let list = arrange(nodes, share);
        lemma_outcome_parts(slot, nodes, res);
        lemma_arrange(nodes, share);
        assert forall|i: int, a: i32| 0 <= i < list.len() && #[trigger] list[i].tags.contains(a)
            implies 0 <= a < sc by {
            let j = choose|j: int| 0 <= j < n && #[trigger] list[i] == truncated(nodes[j], share);
            lemma_truncated_tags(nodes[j], share, a);
        }
        lemma_settle_within(
            list,
            res,
            initial_pool(nodes, sc, share),
            spare_of(sc, n),
            cap_of(slot, n),
            sc,
        );
        assert(res + list.skip(n) =~= res);
    }
}


/// How many nodes own exactly `e` slots.
pub open spec fn full_count(nodes: Seq<NodeView>, e: int) -> int
    decreases nodes.len(),
{
    if nodes.len() == 0 {
        0
    } else {
        full_count(nodes.drop_last(), e) + if nodes.last().tags.len() == e {
            1int
        } else {
            0
        }
    }
}

proof fn lemma_count_concat(a: Seq<NodeView>, b: Seq<NodeView>, e: int)
    ensures
        full_count(a + b, e) == full_count(a, e) + full_count(b, e),
        0 <= full_count(b, e) <= b.len(),
    decreases b.len(),
{
    if b.len() == 0 {
        assert(a + b =~= a);
    } else {
        lemma_count_concat(a, b.drop_last(), e);
        assert((a + b).drop_last() =~= a + b.drop_last());
        assert((a + b).last() == b.last());
    }
}

proof fn lemma_count_single(x: NodeView, e: int)
    ensures
        full_count(seq![x], e) == if x.tags.len() == e {
            1int
        } else {
            0
        },
{
    assert(seq![x].drop_last() =~= Seq::<NodeView>::empty());
    assert(full_count(Seq::<NodeView>::empty(), e) == 0);
    assert(seq![x].last() == x);
}

/// The first pass keeps the nodes themselves, each cut to its share.
proof fn lemma_arrange_keeps(nodes: Seq<NodeView>, share: int)
    ensures
        arrange(nodes, share).to_multiset() == truncate_all(nodes, share).to_multiset(),
        full_count(arrange(nodes, share), share) == full_count(truncate_all(nodes, share), share),
    decreases nodes.len(),
{
    broadcast use vstd::seq_lib::group_to_multiset_ensures;

    let a = arrange(nodes, share);
    let ta = truncate_all(nodes, share);
    if nodes.len() == 0 {
        assert(a =~= ta);
    } else {
        let d = nodes.drop_last();
        let prev = arrange(d, share);
        let t = truncated(nodes.last(), share);
        lemma_arrange_keeps(d, share);
        assert(ta =~= truncate_all(d, share).push(t));
        assert(ta.drop_last() =~= truncate_all(d, share));
        lemma_count_single(t, share);
        lemma_count_concat(truncate_all(d, share), seq![t], share);
        assert(truncate_all(d, share) + seq![t] =~= ta);
        if t.tags.len() == share {
            assert(a =~= prev.insert(0, t));
            lemma_count_concat(seq![t], prev, share);
            assert(a =~= seq![t] + prev);
        } else {
            lemma_count_concat(prev, seq![t], share);
            assert(a =~= prev + seq![t]);
        }
    }
}

/// When every node owns `q` or `q + 1` slots, they own `n * q` slots plus
/// one for each node that owns `q + 1`.
proof fn lemma_total_split(nodes: Seq<NodeView>, q: int)
    requires
        forall|i: int|
            0 <= i < nodes.len() ==> #[trigger] nodes[i].tags.len() == q || nodes[i].tags.len()
                == q + 1,
    ensures
        tag_total(nodes) == nodes.len() * q + full_count(nodes, q + 1),
    decreases nodes.len(),
{
    if nodes.len() > 0 {
        let d = nodes.drop_last();
        assert forall|i: int| 0 <= i < d.len() implies #[trigger] d[i].tags.len() == q
            || d[i].tags.len() == q + 1 by {
            assert(d[i] == nodes[i]);
        }
        lemma_total_split(d, q);
        assert(nodes.last() == nodes[nodes.len() - 1]);
        assert(d.len() * q + q == nodes.len() * q) by (nonlinear_arith)
            requires
                d.len() + 1 == nodes.len(),
        ;
    }
}

/// Rebalancing nodes that are already balanced moves no slot: when the
/// slots are owned once each, lie in and cover `0 .. slot_count`, every node
/// owns the quotient or the quotient rounded up, and the task allows the
/// full share, the result is the same nodes with the same slots, the full
/// ones first.
pub proof fn law_balance_of_balanced(slot: TaskSlot, nodes: Seq<NodeView>, res: Seq<NodeView>)
    requires
        balance_outcome(slot, nodes, res),
        nodes.len() > 0,
        slot.slot_count >= 0,
        slot.node_max_count >= share_of(slot.slot_count as int, nodes.len() as int),
        slots_unique(nodes),
        tags_within(nodes, slot.slot_count as int),
        forall|a: i32| 0 <= a < slot.slot_count ==> #[trigger] slot_owned(nodes, a),
        forall|i: int|
            0 <= i < nodes.len() ==> #[trigger] nodes[i].tags.len() == (slot.slot_count as int)
                / (nodes.len() as int) || nodes[i].tags.len() == share_of(
                slot.slot_count as int,
                nodes.len() as int,
            ),
    ensures
        res == arrange(nodes, share_of(slot.slot_count as int, nodes.len() as int)),
        res.to_multiset() == nodes.to_multiset(),
{
    let sc = slot.slot_count as int;
    let n = nodes.len() as int;
    let e = share_of(sc, n);
    let s0 = spare_of(sc, n);
    let list = arrange(nodes, e);
    let pool0 = initial_pool(nodes, sc, e);
    let q = sc / n;
    let rm = sc % n;
    lemma_outcome_parts(slot, nodes, res);
    lemma_arrange(nodes, e);
    lemma_arrange_keeps(nodes, e);
    assert(sc == n * q + rm && 0 <= rm < n && q >= 0) by (nonlinear_arith)
        requires
            sc >= 0,
            n > 0,
            q == sc / n,
            rm == sc % n,
    ;
    assert(trunc_div(sc, n) == q && trunc_rem(sc, n) == rm);
    // No node is cut.
    assert(truncate_all(nodes, e) =~= nodes) by {
        assert forall|i: int| 0 <= i < n implies #[trigger] truncate_all(nodes, e)[i] == nodes[i] by {
            assert(nodes[i].tags.len() <= e);
        }
    }
    // Nothing is free.
    assert(pool0 =~= Set::<i32>::empty()) by {
        assert forall|a: i32| !pool0.contains(a) by {
            if slot_range(sc).contains(a) {
                assert(slot_owned(nodes, a));
                let i = choose|i: int| 0 <= i < n && #[trigger] nodes[i].tags.contains(a);
                lemma_held_tags_contains(nodes, a);
            }
        }
    }
    // At most the spare count of nodes own the full share.
    lemma_count_concat(Seq::<NodeView>::empty(), nodes, e);
    if rm != 0 {
        assert(e == q + 1 && s0 == rm);
        lemma_total_split(nodes, q);
        lemma_held_card(nodes);
        lemma_slot_range_card(sc);
        assert(held_tags(nodes) =~= slot_range(sc)) by {
            assert forall|a: i32| held_tags(nodes).contains(a) <==> slot_range(sc).contains(a) by {
                lemma_held_tags_contains(nodes, a);
                if 0 <= a < sc {
                    assert(slot_owned(nodes, a));
                }
            }
        }
        assert(full_count(nodes, e) == rm);
    } else {
        assert(s0 == n);
    }
    assert(full_count(list, e) <= s0);
    lemma_settle_balanced(list, res, pool0, s0, e);
    assert forall|k: int| 0 <= k < n implies #[trigger] res[k] == list[k] by {
        assert(res[k] == list[k].with_tags(res[k].tags));
    }
    assert(res =~= list);
}

/// The second pass over full and short nodes with no free slot, and enough
/// spare count for every full node, changes nothing.
proof fn lemma_settle_balanced(
    list: Seq<NodeView>,
    res: Seq<NodeView>,
    pool0: Set<i32>,
    spare0: int,
    e: int,
)
    requires
        settle_prefix(list, res, pool0, spare0, e).0,
        res.len() <= list.len(),
        pool0 == Set::<i32>::empty(),
        forall|k: int| 0 <= k < list.len() ==> #[trigger] list[k].tags.len() <= e,
        full_count(list, e) <= spare0,
    ensures
        ({
            let st = settle_prefix(list, res, pool0, spare0, e);
            &&& st.1 == Set::<i32>::empty()
            &&& full_count(list.skip(res.len() as int), e) <= st.2
        }),
        forall|k: int| 0 <= k < res.len() ==> #[trigger] res[k].tags == list[k].tags,
    decreases res.len(),
{
    if res.len() == 0 {
        assert(list.skip(0) =~= list);
    } else {
        let k = res.len() - 1;
        let d = res.drop_last();
        let prev = settle_prefix(list, d, pool0, spare0, e);
        lemma_settle_balanced(list, d, pool0, spare0, e);
        let t = list[k].tags;
        let r = res[k].tags;
        assert(list.skip(k) =~= seq![list[k]] + list.skip(k + 1));
        lemma_count_concat(seq![list[k]], list.skip(k + 1), e);
        lemma_count_single(list[k], e);
        if t.len() == e {
            assert(prev.2 > 0);
            assert(r == t);
        } else {
            assert(prev.1.len() == 0);
            assert(r.take(t.len() as int) == t);
            assert(r =~= t);
            assert(prev.1.difference(r.skip(t.len() as int).to_set()) =~= Set::<i32>::empty());
        }
        assert forall|j: int| 0 <= j < res.len() implies #[trigger] res[j].tags == list[j].tags by {
            if j < k {
                assert(d[j] == res[j]);
            }
        }
    }
}

/// A layout with a non-negative slot count that lets every node own at
/// least one slot can be rebalanced over any nodes whose counts fit in
/// 32 bits, whatever they owned before: a node that owns more than its new
/// share is cut down to it, so the rebalance always runs to its end.
pub proof fn law_balance_defined_for_any_holdings(slot: TaskSlot, nodes: Seq<NodeView>)
    requires
        slot.slot_count >= 0,
        slot.node_max_count >= 1,
        nodes.len() <= i32::MAX,
        forall|k: int| 0 <= k < nodes.len() ==> #[trigger] nodes[k].tags.len() <= i32::MAX,
    ensures
        balance_defined(slot, nodes),
{
    if nodes.len() > 0 {
        let n = nodes.len() as int;
        let sc = slot.slot_count as int;
        assert(trunc_div(sc, n) == sc / n);
        assert(trunc_rem(sc, n) == sc % n);
        assert(sc / n >= 0) by (nonlinear_arith)
            requires
                sc >= 0,
                n >= 1,
        ;
        let share = share_of(sc, n);
        assert(share >= 0);
        if sc == 0 {
            assert(0int / n == 0) by (nonlinear_arith)
                requires
                    n >= 1,
            ;
            assert(0int % n == 0) by (nonlinear_arith)
                requires
                    n >= 1,
            ;
            assert(share == 0);
            lemma_arrange(nodes, share);
        } else {
            assert(sc % n >= 0 && sc % n < n) by (nonlinear_arith)
                requires
                    sc >= 1,
                    n >= 1,
            ;
            assert(sc / n >= 1 || sc % n != 0) by (nonlinear_arith)
                requires
                    sc >= 1,
                    n >= 1,
            ;
            assert(share >= 1);
        }
        assert(cap_of(slot, n) >= 0);
    }
}

} // verus!

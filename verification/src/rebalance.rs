//! Sharing the slots of a task among the nodes that work on it.

use vstd::prelude::*;
use std::collections::HashSet;
use vstd::std_specs::hash::spec_hash_keys_iter;
use vstd::std_specs::iter::IteratorSpec;

use crate::entity::{NodeEntity, NodeView, TaskSlot};
use crate::entity::node_entity::node_views;
use crate::rebalance_laws::law_balance_defined_for_any_holdings;

verus! {

broadcast use vstd::std_specs::hash::group_hash_axioms;

// ---------------------------------------------------------------------------
// The arithmetic of a layout
// ---------------------------------------------------------------------------

/// Integer division rounded toward zero, as on machine integers (`b > 0`).
pub open spec fn trunc_div(a: int, b: int) -> int {
    if a >= 0 {
        a / b
    } else {
        -((-a) / b)
    }
}

/// The remainder that goes with [`trunc_div`]; it has the sign of `a`.
pub open spec fn trunc_rem(a: int, b: int) -> int {
    if a >= 0 {
        a % b
    } else {
        -((-a) % b)
    }
}

/// How many slots a node should own when `slot_count` slots are shared by
/// `n` nodes: the quotient, rounded up when the division leaves a remainder.
pub open spec fn share_of(slot_count: int, n: int) -> int {
    if trunc_rem(slot_count, n) != 0 {
        trunc_div(slot_count, n) + 1
    } else {
        trunc_div(slot_count, n)
    }
}

/// How many nodes may own the full share: the remainder of the division, or
/// every node when there is none.
pub open spec fn spare_of(slot_count: int, n: int) -> int {
    if trunc_rem(slot_count, n) != 0 {
        trunc_rem(slot_count, n)
    } else {
        n
    }
}

/// The most slots one node may own: its share, but no more than the task's
/// `node_max_count`.
pub open spec fn cap_of(slot: TaskSlot, n: int) -> int {
    if slot.node_max_count > share_of(slot.slot_count as int, n) {
        share_of(slot.slot_count as int, n)
    } else {
        slot.node_max_count as int
    }
}

/// The slots of a task: `0 .. slot_count`.
pub open spec fn slot_range(slot_count: int) -> Set<i32> {
    Set::new(|x: i32| 0 <= x < slot_count)
}

// ---------------------------------------------------------------------------
// First pass: every node keeps at most its share, in its own order
// ---------------------------------------------------------------------------

/// A node that keeps only the first `share` of its slots.
pub open spec fn truncated(node: NodeView, share: int) -> NodeView {
    if node.tags.len() > share {
        node.with_tags(node.tags.take(share))
    } else {
        node
    }
}

/// The order in which the nodes are settled: the nodes that own exactly
/// their share after truncation come first, the last of them first; the
/// others follow in their own order.
pub open spec fn arrange(nodes: Seq<NodeView>, share: int) -> Seq<NodeView>
    decreases nodes.len(),
{
    if nodes.len() == 0 {
        Seq::empty()
    } else {
        let prev = arrange(nodes.drop_last(), share);
        let t = truncated(nodes.last(), share);
        if t.tags.len() == share {
            seq![t] + prev
        } else {
            prev.push(t)
        }
    }
}

/// Every slot that some node of `nodes` owns.
pub open spec fn held_tags(nodes: Seq<NodeView>) -> Set<i32>
    decreases nodes.len(),
{
    if nodes.len() == 0 {
        Set::empty()
    } else {
        held_tags(nodes.drop_last()).union(nodes.last().tags.to_set())
    }
}

/// The nodes after the first pass, in their own order.
pub open spec fn truncate_all(nodes: Seq<NodeView>, share: int) -> Seq<NodeView> {
    nodes.map_values(|n: NodeView| truncated(n, share))
}

/// The slots that nobody owns after the first pass.
pub open spec fn initial_pool(nodes: Seq<NodeView>, slot_count: int, share: int) -> Set<i32> {
    slot_range(slot_count).difference(held_tags(truncate_all(nodes, share)))
}

// ---------------------------------------------------------------------------
// Second pass: every node is settled in turn against the pool of free slots
// ---------------------------------------------------------------------------

/// How many free slots a node that owns `len` slots (fewer than `cap`) asks
/// for: up to `cap` while some node may still own the full share, up to one
/// less afterwards, and at least one in any case.
pub open spec fn wanted(len: int, spare: int, cap: int) -> int {
    let limit = if spare > 0 {
        cap
    } else {
        cap - 1
    };
    if limit - len >= 1 {
        limit - len
    } else {
        1
    }
}

/// One node settled: `t` are its slots before, `r` after, `pool` the free
/// slots and `spare` how many nodes may still own the full share before it.
/// Gives whether `r` is a possible outcome, and the pool and the spare count
/// after it. Which free slots a node receives is not fixed: any that are
/// free may come, distinct, in any order.
pub open spec fn settle_step(t: Seq<i32>, r: Seq<i32>, pool: Set<i32>, spare: int, cap: int) -> (
    bool,
    Set<i32>,
    int,
) {
    if t.len() > cap {
        let idx = if spare > 0 {
            cap
        } else {
            cap - 1
        };
        (
            0 <= idx && r == t.take(idx),
            pool.union(t.skip(idx).to_set()),
            if spare > 0 {
                spare - 1
            } else {
                spare
            },
        )
    } else if t.len() == cap {
        if spare > 0 {
            (r == t, pool, spare - 1)
        } else if t.len() > 0 {
            (r == t.drop_last(), pool.insert(t.last()), spare)
        } else {
            (r == t, pool, spare)
        }
    } else {
        let need = wanted(t.len() as int, spare, cap);
        let got = if need <= pool.len() {
            need
        } else {
            pool.len() as int
        };
        let fresh = r.skip(t.len() as int);
        (
            r.len() == t.len() + got && r.take(t.len() as int) == t && fresh.no_duplicates()
                && fresh.to_set().subset_of(pool),
            pool.difference(fresh.to_set()),
            if need <= pool.len() && spare > 0 {
                spare - 1
            } else {
                spare
            },
        )
    }
}

/// The second pass over the first `res.len()` nodes of `list`: whether `res`
/// is a possible outcome for them, and the pool and spare count after them.
pub open spec fn settle_prefix(
    list: Seq<NodeView>,
    res: Seq<NodeView>,
    pool0: Set<i32>,
    spare0: int,
    cap: int,
) -> (bool, Set<i32>, int)
    decreases res.len(),
{
    if res.len() == 0 {
        (true, pool0, spare0)
    } else {
        let k = res.len() - 1;
        let prev = settle_prefix(list, res.drop_last(), pool0, spare0, cap);
        let s = settle_step(list[k].tags, res[k].tags, prev.1, prev.2, cap);
        (prev.0 && res[k] == list[k].with_tags(res[k].tags) && s.0, s.1, s.2)
    }
}

/// Whether `res` is a possible result of rebalancing `nodes` over the layout
/// `slot`. Every decision of the rebalance is fixed by its inputs but one:
/// which free slots an under-filled node receives, which follows the
/// iteration order of a hash set.
pub open spec fn balance_outcome(slot: TaskSlot, nodes: Seq<NodeView>, res: Seq<NodeView>) -> bool {
    if nodes.len() == 0 {
        res.len() == 0
    } else {
        let n = nodes.len() as int;
        let share = share_of(slot.slot_count as int, n);
        let list = arrange(nodes, share);
        &&& res.len() == list.len()
        &&& settle_prefix(
            list,
            res,
            initial_pool(nodes, slot.slot_count as int, share),
            spare_of(slot.slot_count as int, n),
            cap_of(slot, n),
        ).0
    }
}

/// The inputs on which the rebalance runs to its end. Besides the limits of
/// 32-bit counts, it stops on a negative share or cap, and on a cap of zero
/// when a node that owns slots comes after the last one allowed the full
/// share.
pub open spec fn balance_defined(slot: TaskSlot, nodes: Seq<NodeView>) -> bool {
    nodes.len() == 0 || {
        let n = nodes.len() as int;
        let share = share_of(slot.slot_count as int, n);
        let cap = cap_of(slot, n);
        &&& n <= i32::MAX
        &&& forall|k: int| 0 <= k < n ==> #[trigger] nodes[k].tags.len() <= i32::MAX
        &&& share >= 0
        &&& cap >= 0
        &&& (cap == 0 ==> forall|k: int|
            0 <= k < n && #[trigger] arrange(nodes, share)[k].tags.len() > 0 ==> k < spare_of(
                slot.slot_count as int,
                n,
            ))
    }
}

/// Whether some node of `nodes` carries the code `code`.
pub open spec fn has_code(nodes: Seq<NodeView>, code: Seq<char>) -> bool {
    exists|i: int| 0 <= i < nodes.len() && #[trigger] nodes[i].code == code
}

/// Whether `i` is the first position of a node with the code `code`.
pub open spec fn first_with_code(nodes: Seq<NodeView>, code: Seq<char>, i: int) -> bool {
    &&& 0 <= i < nodes.len()
    &&& nodes[i].code == code
    &&& forall|j: int| 0 <= j < i ==> #[trigger] nodes[j].code != code
}

/// Whether `res` is a possible result of the node `des` joining `nodes`:
/// the same list when its code is there already, otherwise a rebalance of
/// the list with the node added last.
pub open spec fn join_outcome(slot: TaskSlot, nodes: Seq<NodeView>, des: NodeView, res: Seq<NodeView>) -> bool {
    if has_code(nodes, des.code) {
        res == nodes
    } else {
        balance_outcome(slot, nodes.push(des), res)
    }
}

/// Whether `res` is a possible result of the node `code` leaving `nodes`:
/// the same list when no node carries the code, otherwise a rebalance of the
/// list without the first node that carries it.
pub open spec fn remove_outcome(slot: TaskSlot, nodes: Seq<NodeView>, code: Seq<char>, res: Seq<NodeView>) -> bool {
    &&& !has_code(nodes, code) ==> res == nodes
    &&& forall|i: int|
        first_with_code(nodes, code, i) ==> balance_outcome(slot, #[trigger] nodes.remove(i), res)
}

// ---------------------------------------------------------------------------
// Executable
// ---------------------------------------------------------------------------

/// The free slots, in the order in which the set hands them out.
fn free_slots(pool: &HashSet<i32>) -> (v: Vec<i32>)
    ensures
        v@.to_set() == pool@,
        v@.no_duplicates(),
        pool@.finite(),
        pool@.len() == v@.len(),
{
    let ghost keys = spec_hash_keys_iter(pool).remaining().unref();
    let mut v: Vec<i32> = Vec::new();
    for x in it: pool.iter()
        invariant
            v@.len() == it.index(),
            it.seq().unref() == keys,
            forall|i: int| 0 <= i < v@.len() ==> v@[i] == keys[i],
    {
        v.push(*x);
    }
    assert(v@ == keys);
    proof {
        v@.lemma_no_dup_set_cardinality();
    }
    v
}

/// Settles one node against the pool of free slots (see [`settle_step`]).
fn settle(node: NodeEntity, pool: &mut HashSet<i32>, more: &mut i32, max: i32) -> (r: NodeEntity)
    requires
        max >= 0,
        node.tags@.len() <= i32::MAX,
        node.tags@.len() > max ==> (*old(more) > 0 || max >= 1),
    ensures
        r@ == node@.with_tags(r@.tags),
        ({
            let s = settle_step(node@.tags, r@.tags, old(pool)@, *old(more) as int, max as int);
            &&& s.0
            &&& final(pool)@ == s.1
            &&& *final(more) == s.2
        }),
{
    let mut node = node;
    let ghost t = node.tags@;
    let ghost node0 = node@;
    let len = node.tags.len() as i32;
    if len > max {
        let index = if *more > 0 {
            *more = *more - 1;
            max
        } else {
            max - 1
        };
        let rm = node.tags.split_off(index as usize);
        let mut i: usize = 0;
        while i < rm.len()
            invariant
                i <= rm@.len(),
                rm@ == t.skip(index as int),
                pool@ == old(pool)@.union(rm@.take(i as int).to_set()),
            decreases rm@.len() - i,
        {
            pool.insert(rm[i]);
            proof {
                assert(rm@.take(i as int + 1) == rm@.take(i as int).push(rm@[i as int]));
                rm@.take(i as int).lemma_push_to_set_commute(rm@[i as int]);
            }
            i = i + 1;
        }
        assert(rm@.take(rm@.len() as int) == rm@);
    } else if len == max {
        if *more > 0 {
            *more = *more - 1;
        } else {
            match node.tags.pop() {
                Some(j) => {
                    pool.insert(j);
                },
                None => {},
            }
        }
    } else {
        let cand = free_slots(pool);
        let ghost p0 = pool@;
        let mut taken: Vec<i32> = Vec::new();
        let mut idx: usize = 0;
        let mut stopped = false;
        while idx < cand.len()
            invariant_except_break
                !stopped,
                idx < wanted(t.len() as int, *old(more) as int, max as int),
            invariant
                idx <= cand@.len(),
                cand@.to_set() == p0,
                cand@.no_duplicates(),
                p0.len() == cand@.len(),
                pool@ == p0,
                taken@ == cand@.take(idx as int),
                node.tags@ == t + taken@,
                t.len() < max,
                max >= 0,
                *more == *old(more),
                node@ == node0.with_tags(node.tags@),
            ensures
                stopped ==> (idx == wanted(t.len() as int, *old(more) as int, max as int)
                    && idx <= cand@.len()),
                !stopped ==> idx == cand@.len() && idx < wanted(
                    t.len() as int,
                    *old(more) as int,
                    max as int,
                ),
                taken@ == cand@.take(idx as int),
                node.tags@ == t + taken@,
                pool@ == p0,
                *more == *old(more),
                node@ == node0.with_tags(node.tags@),
            decreases cand@.len() - idx,
        {
            let j = cand[idx];
            node.tags.push(j);
            taken.push(j);
            proof {
                assert(cand@.take(idx as int + 1) == cand@.take(idx as int).push(j));
            }
            idx = idx + 1;
            let limit = if *more > 0 {
                max
            } else {
                max - 1
            };
            if node.tags.len() as i32 >= limit {
                stopped = true;
                break;
            }
        }
        if stopped && *more > 0 {
            *more = *more - 1;
        }
        let ghost fresh = taken@;
        proof {
            assert(node.tags@.skip(t.len() as int) == fresh);
            assert(node.tags@.take(t.len() as int) == t);
            assert forall|a: i32| #[trigger] fresh.to_set().contains(a) implies p0.contains(a) by {
                assert(fresh.contains(a));
                let b = choose|b: int| 0 <= b < fresh.len() && fresh[b] == a;
                assert(cand@[b] == a);
                assert(cand@.contains(a));
            }
            assert(fresh.no_duplicates()) by {
                assert forall|a: int, b: int| 0 <= a < b < fresh.len() implies fresh[a] != fresh[b] by {
                    assert(fresh[a] == cand@[a]);
                    assert(fresh[b] == cand@[b]);
                }
            }
        }
        let mut i: usize = 0;
        while i < taken.len()
            invariant
                i <= taken@.len(),
                taken@ == fresh,
                pool@ == p0.difference(fresh.take(i as int).to_set()),
            decreases taken@.len() - i,
        {
            pool.remove(&taken[i]);
            proof {
                assert(fresh.take(i as int + 1) == fresh.take(i as int).push(fresh[i as int]));
                fresh.take(i as int).lemma_push_to_set_commute(fresh[i as int]);
                assert(p0.difference(fresh.take(i as int + 1).to_set()) =~= p0.difference(
                    fresh.take(i as int).to_set(),
                ).remove(fresh[i as int]));
            }
            i = i + 1;
        }
        assert(fresh.take(fresh.len() as int) == fresh);
    }
    node
}


/// The share, the spare count and the cap of a layout shared by `n` nodes,
/// computed on machine integers.
fn layout_numbers(slot: &TaskSlot, n: i32) -> (r: (i32, i32, i32))
    requires
        n >= 1,
    ensures
        r.0 == share_of(slot.slot_count as int, n as int),
        r.1 == spare_of(slot.slot_count as int, n as int),
        r.2 == cap_of(*slot, n as int),
{
    let mut exp = slot.slot_count / n;
    let mut more = slot.slot_count % n;
    proof {
        let a = slot.slot_count as int;
        let b = n as int;
        if b == 1 {
            assert(a >= 0 ==> a % b == 0) by (nonlinear_arith)
                requires
                    b == 1,
            ;
            assert(a < 0 ==> (-a) % b == 0) by (nonlinear_arith)
                requires
                    b == 1,
            ;
        } else {
            assert(a >= 0 ==> a / b < 0x7fff_ffff) by (nonlinear_arith)
                requires
                    b >= 2,
                    a <= 0x7fff_ffff,
            ;
        }
    }
    if more != 0 {
        exp = exp + 1;
    } else {
        more = n;
    }
    let max = if slot.node_max_count > exp {
        exp
    } else {
        slot.node_max_count
    };
    (exp, more, max)
}

/// First pass on one node: it keeps at most `share` slots, and the slots it
/// keeps leave the pool.
fn trim(node: NodeEntity, share: i32, pool: &mut HashSet<i32>) -> (r: NodeEntity)
    requires
        share >= 0,
        node.tags@.len() <= i32::MAX,
    ensures
        r@ == truncated(node@, share as int),
        final(pool)@ == old(pool)@.difference(r@.tags.to_set()),
{
    let ghost node0 = node@;
    let mut node = node;
    if node.tags.len() as i32 > share {
        node.tags.truncate(share as usize);
    }
    assert(node@ == truncated(node0, share as int));
    let mut i: usize = 0;
    while i < node.tags.len()
        invariant
            i <= node.tags@.len(),
            pool@ == old(pool)@.difference(node.tags@.take(i as int).to_set()),
        decreases node.tags@.len() - i,
    {
        pool.remove(&node.tags[i]);
        proof {
            assert(node.tags@.take(i as int + 1) == node.tags@.take(i as int).push(
                node.tags@[i as int],
            ));
            node.tags@.take(i as int).lemma_push_to_set_commute(node.tags@[i as int]);
            assert(old(pool)@.difference(node.tags@.take(i as int + 1).to_set()) =~= old(
                pool,
            )@.difference(node.tags@.take(i as int).to_set()).remove(node.tags@[i as int]));
        }
        i = i + 1;
    }
    assert(node.tags@.take(node.tags@.len() as int) == node.tags@);
    node
}

/// A rebalance of the nodes of one task over its slot layout.
pub struct SoltRebalance<'a> {
    slot: &'a TaskSlot,
    nodes: Vec<NodeEntity>,
}

impl<'a> SoltRebalance<'a> {
    /// The slot layout that the rebalance follows.
    pub closed spec fn layout(&self) -> TaskSlot {
        *self.slot
    }

    /// The nodes that the rebalance starts from.
    pub closed spec fn nodes(&self) -> Seq<NodeView> {
        node_views(self.nodes@)
    }

    /// A rebalance of `nodes` over the layout `task`.
    pub fn new(task: &'a TaskSlot, nodes: Vec<NodeEntity>) -> (r: SoltRebalance<'a>)
        ensures
            r.layout() == *task,
            r.nodes() == node_views(nodes@),
    {
        SoltRebalance { slot: task, nodes }
    }

    /// Shares the slots among the nodes. Every node keeps at most its share
    /// of its own slots; nodes that own more than the task allows give the
    /// surplus back; the free slots then go to the nodes that own too few
    /// (see [`balance_outcome`]). No node means no assignment.
    pub fn balance(self) -> (r: Vec<NodeEntity>)
        requires
            balance_defined(self.layout(), self.nodes()),
        ensures
            balance_outcome(self.layout(), self.nodes(), node_views(r@)),
            r@.len() == self.nodes().len(),
    {
        let slot = self.slot;
        let ns = self.nodes;
        let ghost nodes = node_views(ns@);
        if ns.len() == 0 {
            return Vec::new();
        }
        let n = ns.len() as i32;
        let mut tags_set: HashSet<i32> = HashSet::new();
        let mut i: i32 = 0;
        while i < slot.slot_count
            invariant
                0 <= i,
                i <= slot.slot_count || i == 0,
                tags_set@ == Set::new(|x: i32| 0 <= x < i),
            decreases slot.slot_count - i,
        {
            tags_set.insert(i);
            assert(tags_set@ =~= Set::new(|x: i32| 0 <= x < i + 1));
            i = i + 1;
        }
        assert(tags_set@ =~= slot_range(slot.slot_count as int));
        let (exp, more0, max) = layout_numbers(slot, n);
        let mut more = more0;

        // First pass: trim every node to its share; the full ones go first.
        let mut src = ns;
        let mut list: Vec<NodeEntity> = Vec::new();
        let mut k: usize = 0;
        while src.len() > 0
            invariant
                exp >= 0,
                nodes.len() == n,
                k + src@.len() == n,
                list@.len() == k,
                node_views(src@) == nodes.skip(k as int),
                node_views(list@) == arrange(nodes.take(k as int), exp as int),
                tags_set@ == slot_range(slot.slot_count as int).difference(
                    held_tags(truncate_all(nodes.take(k as int), exp as int)),
                ),
                forall|j: int| 0 <= j < n ==> #[trigger] nodes[j].tags.len() <= i32::MAX,
                forall|j: int| 0 <= j < list@.len() ==> #[trigger] list@[j].tags@.len() <= i32::MAX,
            decreases src@.len(),
        {
            let ghost src_before = src@;
            let node = src.remove(0);
            proof {
                assert(node_views(src_before)[0] == src_before[0]@);
                assert(nodes.skip(k as int)[0] == nodes[k as int]);
                assert(node@ == nodes[k as int]);
                assert(nodes[k as int].tags.len() <= i32::MAX);
            }
            let node = trim(node, exp, &mut tags_set);
            let ghost t = node@;
            if node.tags.len() as i32 == exp {
                list.insert(0, node);
            } else {
                list.push(node);
            }
            proof {
                let pre = nodes.take(k as int);
                let post = nodes.take(k as int + 1);
                assert(post.drop_last() == pre);
                assert(post.last() == nodes[k as int]);
                if t.tags.len() == exp {
                    assert(node_views(list@) =~= seq![t] + arrange(pre, exp as int));
                } else {
                    assert(node_views(list@) =~= arrange(pre, exp as int).push(t));
                }
                assert(truncate_all(post, exp as int).drop_last() =~= truncate_all(pre, exp as int));
                assert(truncate_all(post, exp as int).last() == t);
                assert(tags_set@ =~= slot_range(slot.slot_count as int).difference(
                    held_tags(truncate_all(post, exp as int)),
                ));
                assert forall|j: int| 0 <= j < src@.len() implies #[trigger] node_views(src@)[j]
                    == nodes.skip(k as int + 1)[j] by {
                    assert(src@[j] == src_before[j + 1]);
                    assert(node_views(src_before)[j + 1] == src_before[j + 1]@);
                    assert(nodes.skip(k as int)[j + 1] == nodes[k as int + 1 + j]);
                }
                assert(node_views(src@) =~= nodes.skip(k as int + 1));
            }
            k = k + 1;
        }
        assert(nodes.take(n as int) == nodes);
        let ghost list0 = node_views(list@);
        let ghost pool0 = tags_set@;
        let ghost spare0 = more as int;
        assert(list0 == arrange(nodes, exp as int));

        // Second pass: settle every node in that order.
        let mut out: Vec<NodeEntity> = Vec::new();
        while list.len() > 0
            invariant
                list0.len() == n,
                out@.len() + list@.len() == n,
                node_views(list@) == list0.skip(out@.len() as int),
                forall|j: int| 0 <= j < list0.len() ==> #[trigger] list0[j].tags.len() <= i32::MAX,
                max >= 0,
                max == 0 ==> forall|j: int|
                    0 <= j < n && #[trigger] list0[j].tags.len() > 0 ==> j < spare0,
                max == 0 ==> more == (if spare0 <= 0 {
                    spare0
                } else if out@.len() < spare0 {
                    spare0 - out@.len()
                } else {
                    0
                }),
                settle_prefix(list0, node_views(out@), pool0, spare0, max as int) == (
                    true,
                    tags_set@,
                    more as int,
                ),
            decreases list@.len(),
        {
            let ghost list_before = list@;
            let node = list.remove(0);
            let ghost kk = out@.len() as int;
            proof {
                assert(node_views(list_before)[0] == list_before[0]@);
                assert(list0.skip(kk)[0] == list0[kk]);
                assert(node@ == list0[kk]);
                assert(list0[kk].tags.len() <= i32::MAX);
            }
            let node = settle(node, &mut tags_set, &mut more, max);
            let ghost out_before = out@;
            out.push(node);
            proof {
                assert(out@.drop_last() == out_before);
                assert(node_views(out@).drop_last() =~= node_views(out_before));
                assert forall|j: int| 0 <= j < list@.len() implies #[trigger] node_views(list@)[j]
                    == list0.skip(kk + 1)[j] by {
                    assert(list@[j] == list_before[j + 1]);
                    assert(node_views(list_before)[j + 1] == list_before[j + 1]@);
                    assert(list0.skip(kk)[j + 1] == list0[kk + 1 + j]);
                }
                assert(node_views(list@) =~= list0.skip(out@.len() as int));
            }
        }
        proof {
            assert(node_views(out@).len() == list0.len());
        }
        out
    }

    /// A node joins: if a node with its code is there already, nothing
    /// changes; otherwise it is added last and the slots are rebalanced.
    pub fn join(self, des: NodeEntity) -> (r: Vec<NodeEntity>)
        requires
            !has_code(self.nodes(), des@.code) ==> balance_defined(
                self.layout(),
                self.nodes().push(des@),
            ),
        ensures
            join_outcome(self.layout(), self.nodes(), des@, node_views(r@)),
    {
        let mut this = self;
        let mut i: usize = 0;
        while i < this.nodes.len()
            invariant
                i <= this.nodes@.len(),
                this.nodes() == self.nodes(),
                this.layout() == self.layout(),
                forall|j: int| 0 <= j < i ==> #[trigger] this.nodes()[j].code != des@.code,
            decreases this.nodes@.len() - i,
        {
            if this.nodes[i].code == des.code {
                proof {
                    assert(this.nodes()[i as int] == this.nodes@[i as int]@);
                    assert(self.nodes()[i as int].code == des@.code);
                }
                return this.nodes;
            }
            proof {
                assert(this.nodes()[i as int] == this.nodes@[i as int]@);
            }
            i = i + 1;
        }
        let ghost before = this.nodes@;
        this.nodes.push(des);
        proof {
            assert(node_views(this.nodes@) =~= node_views(before).push(des@));
        }
        this.balance()
    }

    /// A node leaves: if no node carries `code`, nothing changes; otherwise
    /// the first node with that code is taken out and the slots are
    /// rebalanced.
    pub fn remove(self, code: String) -> (r: Vec<NodeEntity>)
        requires
            forall|i: int|
                first_with_code(self.nodes(), code@, i) ==> balance_defined(
                    self.layout(),
                    #[trigger] self.nodes().remove(i),
                ),
        ensures
            remove_outcome(self.layout(), self.nodes(), code@, node_views(r@)),
    {
        let mut this = self;
        let mut i: usize = 0;
        while i < this.nodes.len()
            invariant
                i <= this.nodes@.len(),
                this.nodes() == self.nodes(),
                this.layout() == self.layout(),
                forall|j: int| 0 <= j < i ==> #[trigger] this.nodes()[j].code != code@,
                forall|m: int|
                    first_with_code(self.nodes(), code@, m) ==> balance_defined(
                        self.layout(),
                        #[trigger] self.nodes().remove(m),
                    ),
            decreases this.nodes@.len() - i,
        {
            proof {
                assert(this.nodes()[i as int] == this.nodes@[i as int]@);
            }
            if this.nodes[i].code == code {
                let ghost before = this.nodes@;
                this.nodes.remove(i);
                proof {
                    assert(first_with_code(self.nodes(), code@, i as int));
                    assert forall|m: int| first_with_code(self.nodes(), code@, m) implies m
                        == i as int by {
                        if m < i {
                            assert(self.nodes()[m].code != code@);
                        } else if m > i {
                            assert(self.nodes()[i as int].code != code@);
                        }
                    }
                    assert(node_views(this.nodes@) =~= node_views(before).remove(i as int));
                    assert(this.nodes() == self.nodes().remove(i as int));
                    assert(balance_defined(self.layout(), self.nodes().remove(i as int)));
                    assert(balance_defined(this.layout(), this.nodes()));
                }
                return this.balance();
            }
            i = i + 1;
        }
        this.nodes
    }

    /// Whether [`Self::balance`] runs to its end on this rebalance (see
    /// [`balance_defined`]); where it does not, a rebalance stops the process.
    pub fn can_balance(&self) -> (r: bool)
        ensures
            r == balance_defined(self.layout(), self.nodes()),
            self.layout().slot_count >= 0 && self.layout().node_max_count >= 1
                && self.nodes().len() <= i32::MAX && (forall|k: int|
                0 <= k < self.nodes().len() ==> #[trigger] self.nodes()[k].tags.len() <= i32::MAX)
                ==> r,
    {
        proof {
            if self.layout().slot_count >= 0 && self.layout().node_max_count >= 1
                && self.nodes().len() <= i32::MAX && (forall|k: int|
                0 <= k < self.nodes().len() ==> #[trigger] self.nodes()[k].tags.len() <= i32::MAX) {
                law_balance_defined_for_any_holdings(self.layout(), self.nodes());
            }
        }
        let ghost nodes = self.nodes();
        let len = self.nodes.len();
        if len == 0 {
            return true;
        }
        if len > 0x7fff_ffff {
            return false;
        }
        let mut i: usize = 0;
        while i < len
            invariant
                i <= len,
                len == nodes.len(),
                nodes == node_views(self.nodes@),
                forall|j: int| 0 <= j < i ==> #[trigger] nodes[j].tags.len() <= i32::MAX,
            decreases len - i,
        {
            assert(nodes[i as int] == self.nodes@[i as int]@);
            if self.nodes[i].tags.len() > 0x7fff_ffff {
                assert(nodes[i as int].tags.len() > i32::MAX);
                return false;
            }
            i = i + 1;
        }
        let n = len as i32;
        let slot = self.slot;
        let (exp, more, max) = layout_numbers(slot, n);
        if exp < 0 || max < 0 {
            return false;
        }
        if max > 0 {
            return true;
        }
        // A cap of zero: the nodes that still own slots after the first pass
        // must all come before the last one allowed the full share.
        let ghost share = exp as int;
        let mut lens: Vec<usize> = Vec::new();
        let mut k: usize = 0;
        while k < len
            invariant
                k <= len,
                len == nodes.len(),
                nodes == node_views(self.nodes@),
                exp >= 0,
                exp as int == share_of(self.layout().slot_count as int, len as int),
                share == exp,
                lens@.len() == k,
                forall|j: int|
                    0 <= j < k ==> #[trigger] lens@[j] == arrange(nodes.take(k as int), share)[j].tags.len(),
                arrange(nodes.take(k as int), share).len() == k,
            decreases len - k,
        {
            let ghost pre = nodes.take(k as int);
            let ghost post = nodes.take(k as int + 1);
            assert(post.drop_last() == pre);
            assert(post.last() == nodes[k as int]);
            assert(nodes[k as int] == self.nodes@[k as int]@);
            let l = self.nodes[k].tags.len();
            let t = if l > exp as usize {
                exp as usize
            } else {
                l
            };
            let ghost lens_before = lens@;
            if t == exp as usize {
                lens.insert(0, t);
                proof {
                    assert forall|j: int| 0 <= j <= k implies #[trigger] lens@[j] == arrange(
                        post,
                        share,
                    )[j].tags.len() by {
                        if j > 0 {
                            assert(lens@[j] == lens_before[j - 1]);
                        }
                    }
                }
            } else {
                lens.push(t);
                proof {
                    assert forall|j: int| 0 <= j <= k implies #[trigger] lens@[j] == arrange(
                        post,
                        share,
                    )[j].tags.len() by {
                        if j < k {
                            assert(lens@[j] == lens_before[j]);
                        }
                    }
                }
            }
            k = k + 1;
        }
        assert(nodes.take(len as int) == nodes);
        let mut j: usize = 0;
        while j < len
            invariant
                j <= len,
                len == nodes.len(),
                len <= i32::MAX,
                lens@.len() == len,
                more == spare_of(self.layout().slot_count as int, len as int),
                share == share_of(self.layout().slot_count as int, len as int),
                cap_of(self.layout(), len as int) == 0,
                nodes == self.nodes(),
                forall|m: int| 0 <= m < len ==> #[trigger] nodes[m].tags.len() <= i32::MAX,
                forall|m: int| 0 <= m < len ==> #[trigger] lens@[m] == arrange(nodes, share)[m].tags.len(),
                forall|m: int|
                    0 <= m < j && #[trigger] arrange(nodes, share)[m].tags.len() > 0 ==> m < more,
            decreases len - j,
        {
            if lens[j] > 0 && (more <= 0 || j as i32 >= more) {
                assert(arrange(nodes, share)[j as int].tags.len() > 0);
                return false;
            }
            j = j + 1;
        }
        true
    }
}

} // verus!

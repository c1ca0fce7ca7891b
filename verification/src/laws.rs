//! The library's laws: pointer staleness across arbitrary operation
//! sequences, correctness of the cached list flag, collector safety, and
//! idempotence of collection.

use vstd::prelude::*;

use crate::gc::{
    all_live_resolve, collect_node, count_dead_upto, reach, reach_n, root_reaches, slot_live,
};
use crate::heap::{
    first_empty, kids, list_flag, node_is_full, node_stamp, nodes_wf, object_at, object_wf, ptr_of,
    resolves, slot_wf, Gc, Node, Object,
};

verus! {

/// A heap snapshot as the laws speak of it: slot contents and the stamp
/// counter.
pub struct HeapState {
    pub nodes: Seq<Node>,
    pub time: usize,
}

/// One operation of the heap's public lifecycle: an allocation or a whole
/// collection cycle with a root set.
pub enum HeapOp {
    Put(Object),
    Collect(Seq<Gc>),
}

/// What a successful allocation does to a heap state: the first empty slot
/// takes the object with the current stamp, the counter advances.  When no
/// slot is free, or the counter has no headroom, the allocation fails and
/// changes nothing.
pub open spec fn op_put(s: HeapState, o: Object) -> HeapState {
    if first_empty(s.nodes) < s.nodes.len() && s.time < usize::MAX {
        HeapState {
            nodes: s.nodes.update(first_empty(s.nodes), Node::Occupied(o, s.time)),
            time: (s.time + 1) as usize,
        }
    } else {
        s
    }
}

/// What a successful collection cycle does to a heap state: live slots
/// survive unchanged, everything else is reclaimed, the counter advances.
/// A cycle that fails on an invalid root changes no slot's content, so the
/// state is modelled as unchanged.
pub open spec fn op_collect(s: HeapState, roots: Seq<Gc>) -> HeapState {
    if all_live_resolve(s.nodes, roots) && s.time < usize::MAX {
        HeapState {
            nodes: Seq::new(s.nodes.len(), |i: int| collect_node(s.nodes, roots, i)),
            time: (s.time + 1) as usize,
        }
    } else {
        s
    }
}

/// Runs a sequence of allocations and collections, in order.
pub open spec fn run_ops(s: HeapState, ops: Seq<HeapOp>) -> HeapState
    decreases ops.len(),
{
    if ops.len() == 0 {
        s
    } else {
        let s1 = match ops[0] {
            HeapOp::Put(o) => op_put(s, o),
            HeapOp::Collect(rs) => op_collect(s, rs),
        };
        run_ops(s1, ops.drop_first())
    }
}

/// A pointer is stale: it does not resolve, and its stamp is strictly below
/// the counter, so no later allocation can ever stamp a slot with it again.
pub open spec fn stale(s: HeapState, p: Gc) -> bool {
    !resolves(s.nodes, p) && p.timestamp < s.time
}

proof fn lemma_stale_after_put(s: HeapState, o: Object, p: Gc)
    requires
        stale(s, p),
    ensures
        stale(op_put(s, o), p),
{
    let s1 = op_put(s, o);
    if first_empty(s.nodes) < s.nodes.len() && s.time < usize::MAX {
        let j = first_empty(s.nodes);
        crate::heap::lemma_first_empty_spec(s.nodes);
        assert(s1.nodes.len() == s.nodes.len());
        assert(p.timestamp < s1.time);
        if p.index < s.nodes.len() {
            if p.index == j {
                assert(s1.nodes[p.index as int] == Node::Occupied(o, s.time));
                assert(node_stamp(s1.nodes[p.index as int]) == s.time);
                assert(p.timestamp != s.time);
                assert(!resolves(s1.nodes, p));
            } else {
                assert(s1.nodes[p.index as int] == s.nodes[p.index as int]);
                assert(!resolves(s1.nodes, p));
            }
        }
    }
}

proof fn lemma_stale_after_collect(s: HeapState, roots: Seq<Gc>, p: Gc)
    requires
        stale(s, p),
    ensures
        stale(op_collect(s, roots), p),
{
    let s1 = op_collect(s, roots);
    if all_live_resolve(s.nodes, roots) && s.time < usize::MAX {
        if p.index < s1.nodes.len() {
            assert(s1.nodes[p.index as int] == collect_node(s.nodes, roots, p.index as int));
        }
    }
}

/// Staleness is permanent: once a pointer is stale, it stays stale across
/// every further sequence of allocations and collections, even sequences
/// that refill its slot.
pub proof fn lemma_stale_forever(s: HeapState, ops: Seq<HeapOp>, p: Gc)
    requires
        stale(s, p),
    ensures
        stale(run_ops(s, ops), p),
    decreases ops.len(),
{
    if ops.len() > 0 {
        let s1 = match ops[0] {
            HeapOp::Put(o) => op_put(s, o),
            HeapOp::Collect(rs) => op_collect(s, rs),
        };
        match ops[0] {
            HeapOp::Put(o) => {
                lemma_stale_after_put(s, o, p);
            },
            HeapOp::Collect(rs) => {
                lemma_stale_after_collect(s, rs, p);
            },
        }
        lemma_stale_forever(s1, ops.drop_first(), p);
    }
}

/// Pointer staleness: a pointer whose slot a collection cycle reclaims
/// fails to resolve from then on, whatever sequence of allocations and
/// collections follows — including ones that reuse the slot.
pub proof fn lemma_pointer_staleness(
    s: HeapState,
    roots: Seq<Gc>,
    p: Gc,
    ops: Seq<HeapOp>,
)
    requires
        nodes_wf(s.nodes, s.time),
        resolves(s.nodes, p),
        !slot_live(s.nodes, roots, p.index as int),
        all_live_resolve(s.nodes, roots),
        s.time < usize::MAX,
    ensures
        stale(op_collect(s, roots), p),
        !resolves(run_ops(op_collect(s, roots), ops).nodes, p),
{
    let s1 = op_collect(s, roots);
    assert(s1.nodes[p.index as int] == collect_node(s.nodes, roots, p.index as int));
    assert(slot_wf(s.nodes, s.time, p.index as int));
    assert(stale(s1, p));
    lemma_stale_forever(s1, ops, p);
}

/// A proper-list chain in at most `n` hops: the pointer resolves, and its
/// object is `Unit` or a pair whose rest is itself a proper chain.
pub open spec fn proper_chain_n(nodes: Seq<Node>, p: Gc, n: nat) -> bool
    decreases n,
{
    resolves(nodes, p) && match object_at(nodes, p) {
        Object::Unit => true,
        Object::Pair(pv) => n > 0 && proper_chain_n(nodes, pv.snd, (n - 1) as nat),
        _ => false,
    }
}

/// A from-scratch traversal: the chain from `p` terminates in `Unit`.
pub open spec fn proper_chain(nodes: Seq<Node>, p: Gc) -> bool {
    exists|n: nat| proper_chain_n(nodes, p, n)
}

proof fn lemma_chain_implies_flag(nodes: Seq<Node>, time: usize, x: Gc, n: nat)
    requires
        nodes_wf(nodes, time),
        proper_chain_n(nodes, x, n),
    ensures
        list_flag(nodes, x),
    decreases n,
{
    assert(slot_wf(nodes, time, x.index as int));
    match object_at(nodes, x) {
        Object::Pair(pv) => {
            assert(object_wf(nodes, object_at(nodes, x), node_stamp(nodes[x.index as int])));
            lemma_chain_implies_flag(nodes, time, pv.snd, (n - 1) as nat);
            assert(pv.is_list == list_flag(nodes, pv.snd));
        },
        _ => {},
    }
}

/// List-cache correctness: in a coherent heap, the cached `is_list` flag of
/// every pair equals what a from-scratch traversal of its rest chain finds —
/// the chain terminates in `Unit` exactly when the flag is set.
pub proof fn lemma_list_cache(nodes: Seq<Node>, time: usize, p: Gc)
    requires
        nodes_wf(nodes, time),
        resolves(nodes, p),
        object_at(nodes, p) is Pair,
    ensures
        (object_at(nodes, p)->Pair_0).is_list <==> proper_chain(
            nodes,
            (object_at(nodes, p)->Pair_0).snd,
        ),
    decreases p.timestamp,
{
    let pv = object_at(nodes, p)->Pair_0;
    assert(slot_wf(nodes, time, p.index as int));
    let stamp = node_stamp(nodes[p.index as int]);
    assert(object_wf(nodes, object_at(nodes, p), stamp));
    assert(kids(object_at(nodes, p))[0] == pv.fst);
    assert(kids(object_at(nodes, p))[1] == pv.snd);
    assert(resolves(nodes, pv.snd) && pv.snd.timestamp < stamp);
    assert(pv.is_list == list_flag(nodes, pv.snd));
    if pv.is_list {
        match object_at(nodes, pv.snd) {
            Object::Unit => {
                assert(proper_chain_n(nodes, pv.snd, 0));
            },
            Object::Pair(qv) => {
                lemma_list_cache(nodes, time, pv.snd);
                assert(qv.is_list);
                let n = choose|n: nat| proper_chain_n(nodes, qv.snd, n);
                assert(proper_chain_n(nodes, pv.snd, n + 1));
            },
            _ => {
                assert(false);
            },
        }
    } else {
        if proper_chain(nodes, pv.snd) {
            let n = choose|n: nat| proper_chain_n(nodes, pv.snd, n);
            lemma_chain_implies_flag(nodes, time, pv.snd, n);
        }
    }
}

/// Collector safety: after a collection cycle whose roots all resolve,
/// every pointer reachable from the root set still resolves to its original
/// object, and no slot unreachable from the root set remains occupied.
pub proof fn lemma_collector_safety(nodes: Seq<Node>, roots: Seq<Gc>, post: Seq<Node>)
    requires
        all_live_resolve(nodes, roots),
        post.len() == nodes.len(),
        forall|i: int| 0 <= i < nodes.len() ==> post[i] == collect_node(nodes, roots, i),
    ensures
        forall|p: Gc| #[trigger] root_reaches(nodes, roots, p) ==> resolves(post, p) && object_at(
            post,
            p,
        ) == object_at(nodes, p),
        forall|i: int|
            0 <= i < nodes.len() && !slot_live(nodes, roots, i) ==> !(#[trigger] post[i]
                is Occupied),
{
    assert forall|p: Gc| #[trigger] root_reaches(nodes, roots, p) implies resolves(post, p)
        && object_at(post, p) == object_at(nodes, p) by {
        assert(resolves(nodes, p));
        assert(ptr_of(nodes, p.index as int) == p);
        assert(slot_live(nodes, roots, p.index as int));
        assert(post[p.index as int] == nodes[p.index as int]);
    }
}

proof fn lemma_reach_into_collected(
    nodes: Seq<Node>,
    roots: Seq<Gc>,
    post: Seq<Node>,
    k: int,
    p: Gc,
    n: nat,
)
    requires
        all_live_resolve(nodes, roots),
        post.len() == nodes.len(),
        forall|i: int| 0 <= i < nodes.len() ==> post[i] == collect_node(nodes, roots, i),
        0 <= k < roots.len(),
        reach_n(nodes, roots[k], p, n),
    ensures
        reach_n(post, roots[k], p, n),
    decreases n,
{
    let root = roots[k];
    if p != root && n > 0 {
        let q = choose|q: Gc|
            reach_n(nodes, root, q, (n - 1) as nat) && resolves(nodes, q) && kids(
                object_at(nodes, q),
            ).contains(p);
        lemma_reach_into_collected(nodes, roots, post, k, q, (n - 1) as nat);
        assert(reach(nodes, root, q));
        assert(root_reaches(nodes, roots, q));
        assert(ptr_of(nodes, q.index as int) == q);
        assert(slot_live(nodes, roots, q.index as int));
        assert(post[q.index as int] == nodes[q.index as int]);
        assert(resolves(post, q) && object_at(post, q) == object_at(nodes, q));
    }
}

proof fn lemma_reach_from_collected(
    nodes: Seq<Node>,
    roots: Seq<Gc>,
    post: Seq<Node>,
    root: Gc,
    p: Gc,
    n: nat,
)
    requires
        post.len() == nodes.len(),
        forall|i: int| 0 <= i < nodes.len() ==> post[i] == collect_node(nodes, roots, i),
        reach_n(post, root, p, n),
    ensures
        reach_n(nodes, root, p, n),
    decreases n,
{
    if p != root && n > 0 {
        let q = choose|q: Gc|
            reach_n(post, root, q, (n - 1) as nat) && resolves(post, q) && kids(
                object_at(post, q),
            ).contains(p);
        lemma_reach_from_collected(nodes, roots, post, root, q, (n - 1) as nat);
        assert(post[q.index as int] == collect_node(nodes, roots, q.index as int));
        assert(post[q.index as int] == nodes[q.index as int]);
        assert(resolves(nodes, q) && object_at(nodes, q) == object_at(post, q));
    }
}

/// Idempotent collection: collecting again with the same root set, with no
/// intervening allocation, reclaims nothing — every surviving slot is still
/// live, the reachable graph is unchanged, and the dead count is zero.
pub proof fn lemma_collect_idempotent(nodes: Seq<Node>, roots: Seq<Gc>, post: Seq<Node>)
    requires
        all_live_resolve(nodes, roots),
        post.len() == nodes.len(),
        forall|i: int| 0 <= i < nodes.len() ==> post[i] == collect_node(nodes, roots, i),
    ensures
        all_live_resolve(post, roots),
        forall|i: int| 0 <= i < post.len() ==> collect_node(post, roots, i) == post[i],
        count_dead_upto(post, roots, post.len() as int) == 0,
{
    assert forall|p: Gc| #[trigger] root_reaches(post, roots, p) implies root_reaches(
        nodes,
        roots,
        p,
    ) by {
        let k = choose|k: int| 0 <= k < roots.len() && reach(post, roots[k], p);
        let n = choose|n: nat| reach_n(post, roots[k], p, n);
        lemma_reach_from_collected(nodes, roots, post, roots[k], p, n);
        assert(reach_n(nodes, roots[k], p, n));
        assert(reach(nodes, roots[k], p));
    }
    assert forall|p: Gc| #[trigger] root_reaches(nodes, roots, p) implies root_reaches(
        post,
        roots,
        p,
    ) && resolves(post, p) && object_at(post, p) == object_at(nodes, p) by {
        let k = choose|k: int| 0 <= k < roots.len() && reach(nodes, roots[k], p);
        let n = choose|n: nat| reach_n(nodes, roots[k], p, n);
        lemma_reach_into_collected(nodes, roots, post, k, p, n);
        assert(reach_n(post, roots[k], p, n));
        assert(reach(post, roots[k], p));
        assert(resolves(nodes, p));
        assert(ptr_of(nodes, p.index as int) == p);
        assert(slot_live(nodes, roots, p.index as int));
        assert(post[p.index as int] == nodes[p.index as int]);
    }
    assert forall|i: int| 0 <= i < post.len() implies collect_node(post, roots, i) == post[i] by {
        if node_is_full(post[i]) {
            assert(post[i] == collect_node(nodes, roots, i));
            assert(slot_live(nodes, roots, i));
            assert(post[i] == nodes[i]);
            assert(ptr_of(post, i) == ptr_of(nodes, i));
            assert(root_reaches(nodes, roots, ptr_of(nodes, i)));
            assert(root_reaches(post, roots, ptr_of(post, i)));
            assert(slot_live(post, roots, i));
        } else {
            assert(!slot_live(post, roots, i));
        }
    }
    lemma_no_dead(post, roots, post.len() as int);
}

proof fn lemma_no_dead(post: Seq<Node>, roots: Seq<Gc>, n: int)
    requires
        0 <= n <= post.len(),
        forall|i: int| 0 <= i < post.len() ==> collect_node(post, roots, i) == post[i],
    ensures
        count_dead_upto(post, roots, n) == 0,
    decreases n,
{
    if n > 0 {
        lemma_no_dead(post, roots, n - 1);
        if post[n - 1] is Occupied {
            assert(collect_node(post, roots, n - 1) == post[n - 1]);
            assert(slot_live(post, roots, n - 1));
        }
    }
}

} // verus!

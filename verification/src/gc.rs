//! The mark-and-sweep collector: a reachability pass over the pointer graph
//! rooted at a caller-supplied root set, then a reclamation pass that empties
//! every slot the mark pass did not reach.  Surviving slots keep their object
//! and stamp, so pointers to survivors stay valid across a collection cycle.

use vstd::prelude::*;

use crate::heap::{
    kids, node_is_full, node_object, node_stamp, nodes_wf, object_at, object_wf, ptr_of, resolves,
    slot_wf, Gc, Heap, Node, Object, Proc,
};
use crate::v0::Error;

verus! {

/// `p` is reachable from `root` in at most `n` pointer-graph steps: either it
/// is the root, or it is a sub-reference of some resolving object reachable
/// in fewer steps.
pub open spec fn reach_n(nodes: Seq<Node>, root: Gc, p: Gc, n: nat) -> bool
    decreases n,
{
    if p == root {
        true
    } else if n == 0 {
        false
    } else {
        exists|q: Gc|
            reach_n(nodes, root, q, (n - 1) as nat) && resolves(nodes, q) && kids(
                object_at(nodes, q),
            ).contains(p)
    }
}

/// `p` is reachable from `root`: the root itself, or a pointer embedded in
/// an object some resolving reachable pointer designates.
pub open spec fn reach(nodes: Seq<Node>, root: Gc, p: Gc) -> bool {
    exists|n: nat| reach_n(nodes, root, p, n)
}

/// `p` is reachable from some pointer of the root set.
pub open spec fn root_reaches(nodes: Seq<Node>, roots: Seq<Gc>, p: Gc) -> bool {
    exists|k: int| 0 <= k < roots.len() && reach(nodes, #[trigger] roots[k], p)
}

/// Every pointer reachable from `root` resolves: the whole reachable graph
/// is intact, which is exactly when a mark pass from `root` succeeds.
pub open spec fn all_reach_resolve(nodes: Seq<Node>, root: Gc) -> bool {
    forall|p: Gc| #[trigger] reach(nodes, root, p) ==> resolves(nodes, p)
}

/// Every pointer reachable from the root set resolves.
pub open spec fn all_live_resolve(nodes: Seq<Node>, roots: Seq<Gc>) -> bool {
    forall|p: Gc| #[trigger] root_reaches(nodes, roots, p) ==> resolves(nodes, p)
}

/// Slot `i` is live for the root set: full, and its unique resolving pointer
/// is reachable from some root.
pub open spec fn slot_live(nodes: Seq<Node>, roots: Seq<Gc>, i: int) -> bool {
    node_is_full(nodes[i]) && root_reaches(nodes, roots, ptr_of(nodes, i))
}

/// Two slots agree on content: same fullness, and for full slots the same
/// object and stamp.  Mark state is ignored.
pub open spec fn node_same(a: Node, b: Node) -> bool {
    &&& node_is_full(a) == node_is_full(b)
    &&& (node_is_full(a) ==> node_object(a) == node_object(b) && node_stamp(a) == node_stamp(b))
}

/// Two heaps agree slot by slot on content: marking is the only difference
/// they may have.
pub open spec fn same_content(a: Seq<Node>, b: Seq<Node>) -> bool {
    a.len() == b.len() && forall|i: int| 0 <= i < a.len() ==> #[trigger] node_same(a[i], b[i])
}

/// `b` is `a` with some occupied slots flipped to marked and nothing else
/// changed: what a partial or complete mark pass does.
pub open spec fn flips_only(a: Seq<Node>, b: Seq<Node>) -> bool {
    &&& a.len() == b.len()
    &&& forall|i: int|
        0 <= i < a.len() ==> (#[trigger] b[i] == a[i] || (a[i] is Occupied && b[i]
            == Node::Marked(node_object(a[i]), node_stamp(a[i]))))
}

/// What a successful mark pass from `root` leaves marked: everything that
/// was already marked, plus every full slot whose pointer is reachable.
pub open spec fn mark_result(orig: Seq<Node>, root: Gc, post: Seq<Node>) -> bool {
    forall|i: int|
        0 <= i < orig.len() ==> ((#[trigger] post[i] is Marked) <==> (orig[i] is Marked || (
        node_is_full(orig[i]) && reach(orig, root, ptr_of(orig, i)))))
}

/// The sub-reference `c` resolves and its slot is marked.
pub open spec fn kid_marked(nodes: Seq<Node>, c: Gc) -> bool {
    resolves(nodes, c) && nodes[c.index as int] is Marked
}

/// Every sub-reference of the object in marked slot `i` resolves to a marked
/// slot.
pub open spec fn slot_kids_marked(nodes: Seq<Node>, i: int) -> bool {
    forall|k: int|
        0 <= k < kids(node_object(nodes[i])).len() ==> kid_marked(
            nodes,
            #[trigger] kids(node_object(nodes[i]))[k],
        )
}

/// The marked slots are closed under sub-references: the state a completed
/// mark phase leaves, and what the sweep phase needs to preserve coherence.
pub open spec fn marked_closed(nodes: Seq<Node>) -> bool {
    forall|i: int|
        0 <= i < nodes.len() && nodes[i] is Marked ==> #[trigger] slot_kids_marked(nodes, i)
}

/// What the sweep pass does to one slot: marked slots revert to occupied,
/// occupied slots are reclaimed, empty slots stay empty.
pub open spec fn sweep_node(n: Node) -> Node {
    match n {
        Node::Empty => Node::Empty,
        Node::Occupied(_, _) => Node::Empty,
        Node::Marked(o, t) => Node::Occupied(o, t),
    }
}

/// What one whole collection cycle does to one slot: live slots survive
/// unchanged, everything else is reclaimed.
pub open spec fn collect_node(nodes: Seq<Node>, roots: Seq<Gc>, i: int) -> Node {
    if slot_live(nodes, roots, i) {
        nodes[i]
    } else {
        Node::Empty
    }
}

/// The number of occupied (unmarked) slots among the first `n`.
pub open spec fn count_occupied_upto(nodes: Seq<Node>, n: int) -> nat
    decreases n,
{
    if n <= 0 {
        0
    } else {
        count_occupied_upto(nodes, n - 1) + (if nodes[n - 1] is Occupied {
            1nat
        } else {
            0nat
        })
    }
}

/// The number of occupied slots: what a sweep right now would reclaim.
pub open spec fn count_occupied(nodes: Seq<Node>) -> nat {
    count_occupied_upto(nodes, nodes.len() as int)
}

/// The number of occupied dead slots among the first `n`: what a collection
/// cycle with the given root set reclaims.
pub open spec fn count_dead_upto(nodes: Seq<Node>, roots: Seq<Gc>, n: int) -> nat
    decreases n,
{
    if n <= 0 {
        0
    } else {
        count_dead_upto(nodes, roots, n - 1) + (if nodes[n - 1] is Occupied && !slot_live(
            nodes,
            roots,
            n - 1,
        ) {
            1nat
        } else {
            0nat
        })
    }
}

/// The number of `false` entries of a seen-set.
pub open spec fn count_false(s: Seq<bool>) -> nat
    decreases s.len(),
{
    if s.len() == 0 {
        0
    } else {
        count_false(s.drop_last()) + (if s.last() {
            0nat
        } else {
            1nat
        })
    }
}

/// Reachability in zero steps is reflexivity.
pub proof fn lemma_reach_refl(nodes: Seq<Node>, root: Gc)
    ensures
        reach(nodes, root, root),
{
    assert(reach_n(nodes, root, root, 0));
}

/// One step: a sub-reference of a resolving reachable pointer is reachable.
pub proof fn lemma_reach_step(nodes: Seq<Node>, root: Gc, q: Gc, p: Gc)
    requires
        reach(nodes, root, q),
        resolves(nodes, q),
        kids(object_at(nodes, q)).contains(p),
    ensures
        reach(nodes, root, p),
{
    let n = choose|n: nat| reach_n(nodes, root, q, n);
    assert(reach_n(nodes, root, p, n + 1));
}

proof fn lemma_reach_n_same_content(a: Seq<Node>, b: Seq<Node>, root: Gc, p: Gc, n: nat)
    requires
        same_content(a, b),
        reach_n(a, root, p, n),
    ensures
        reach_n(b, root, p, n),
    decreases n,
{
    if p != root && n > 0 {
        let q = choose|q: Gc|
            reach_n(a, root, q, (n - 1) as nat) && resolves(a, q) && kids(
                object_at(a, q),
            ).contains(p);
        lemma_reach_n_same_content(a, b, root, q, (n - 1) as nat);
        assert(node_same(a[q.index as int], b[q.index as int]));
        assert(resolves(b, q) && object_at(b, q) == object_at(a, q));
    }
}

/// Reachability depends only on slot content, never on mark state.
pub proof fn lemma_reach_same_content(a: Seq<Node>, b: Seq<Node>, root: Gc)
    requires
        same_content(a, b),
    ensures
        forall|p: Gc| #[trigger] reach(a, root, p) <==> reach(b, root, p),
{
    assert forall|p: Gc| #[trigger] reach(a, root, p) <==> reach(b, root, p) by {
        if reach(a, root, p) {
            let n = choose|n: nat| reach_n(a, root, p, n);
            lemma_reach_n_same_content(a, b, root, p, n);
            assert(reach_n(b, root, p, n));
        }
        if reach(b, root, p) {
            let n = choose|n: nat| reach_n(b, root, p, n);
            assert(same_content(b, a)) by {
                assert forall|i: int| 0 <= i < b.len() implies #[trigger] node_same(
                    b[i],
                    a[i],
                ) by {
                    assert(node_same(a[i], b[i]));
                }
            }
            lemma_reach_n_same_content(b, a, root, p, n);
            assert(reach_n(a, root, p, n));
        }
    }
}

/// Resolution and designated objects depend only on slot content.
pub proof fn lemma_resolution_same_content(a: Seq<Node>, b: Seq<Node>)
    requires
        same_content(a, b),
    ensures
        forall|p: Gc| #[trigger] resolves(a, p) <==> resolves(b, p),
        forall|p: Gc| resolves(a, p) ==> #[trigger] object_at(a, p) == object_at(b, p),
{
    assert forall|p: Gc| #[trigger] resolves(a, p) <==> resolves(b, p) by {
        if p.index < a.len() {
            assert(node_same(a[p.index as int], b[p.index as int]));
        }
    }
    assert forall|p: Gc| resolves(a, p) implies #[trigger] object_at(a, p) == object_at(b, p) by {
        assert(node_same(a[p.index as int], b[p.index as int]));
    }
}

/// The heap invariant depends only on slot content.
pub proof fn lemma_wf_same_content(a: Seq<Node>, b: Seq<Node>, time: usize)
    requires
        nodes_wf(a, time),
        same_content(a, b),
    ensures
        nodes_wf(b, time),
{
    lemma_resolution_same_content(a, b);
    assert forall|i: int| 0 <= i < b.len() implies #[trigger] slot_wf(b, time, i) by {
        assert(slot_wf(a, time, i));
        assert(node_same(a[i], b[i]));
        if node_is_full(b[i]) {
            let o = node_object(a[i]);
            let t = node_stamp(a[i]);
            assert(object_wf(a, o, t));
            assert forall|k: int| 0 <= k < kids(o).len() implies resolves(b, #[trigger] kids(o)[k])
                && kids(o)[k].timestamp < t by {
                assert(resolves(a, kids(o)[k]));
            }
            match o {
                Object::Pair(pv) => {
                    assert(kids(o)[1] == pv.snd);
                    assert(resolves(a, kids(o)[1]));
                    assert(object_at(a, pv.snd) == object_at(b, pv.snd));
                },
                _ => {},
            }
            assert(object_wf(b, o, t));
        }
    }
}

/// Setting one seen flag from false to true lowers the false count by one.
proof fn lemma_count_false_update(s: Seq<bool>, i: int)
    requires
        0 <= i < s.len(),
        !s[i],
    ensures
        count_false(s.update(i, true)) == count_false(s) - 1,
    decreases s.len(),
{
    let s2 = s.update(i, true);
    if i == s.len() - 1 {
        assert(s2.drop_last() =~= s.drop_last());
    } else {
        assert(s2.drop_last() =~= s.drop_last().update(i, true));
        lemma_count_false_update(s.drop_last(), i);
    }
}

/// The sub-reference `c` is settled for the traversal: still queued, or
/// already processed (resolving with its slot seen).
pub open spec fn kid_settled(orig: Seq<Node>, work: Seq<Gc>, seen: Seq<bool>, c: Gc) -> bool {
    work.contains(c) || (resolves(orig, c) && seen[c.index as int])
}

/// Every sub-reference of the object in slot `i` is settled.
pub open spec fn slot_settled(orig: Seq<Node>, work: Seq<Gc>, seen: Seq<bool>, i: int) -> bool {
    forall|k: int|
        0 <= k < kids(node_object(orig[i])).len() ==> kid_settled(
            orig,
            work,
            seen,
            #[trigger] kids(node_object(orig[i]))[k],
        )
}

/// At the end of a traversal with an empty queue, the seen slots are closed
/// under sub-references, so everything reachable from a seen root is seen.
proof fn lemma_reach_n_settled(orig: Seq<Node>, root: Gc, seen: Seq<bool>, p: Gc, n: nat)
    requires
        seen.len() == orig.len(),
        resolves(orig, root),
        seen[root.index as int],
        forall|i: int|
            0 <= i < orig.len() && seen[i] ==> #[trigger] slot_settled(
                orig,
                Seq::<Gc>::empty(),
                seen,
                i,
            ),
        reach_n(orig, root, p, n),
    ensures
        resolves(orig, p),
        seen[p.index as int],
    decreases n,
{
    if p == root {
    } else {
        let q = choose|q: Gc|
            reach_n(orig, root, q, (n - 1) as nat) && resolves(orig, q) && kids(
                object_at(orig, q),
            ).contains(p);
        lemma_reach_n_settled(orig, root, seen, q, (n - 1) as nat);
        assert(slot_settled(orig, Seq::<Gc>::empty(), seen, q.index as int));
        let ks = kids(object_at(orig, q));
        let k = choose|k: int| 0 <= k < ks.len() && ks[k] == p;
        assert(kid_settled(orig, Seq::<Gc>::empty(), seen, ks[k]));
        assert(!Seq::<Gc>::empty().contains(p));
    }
}

/// Lists the sub-references of one object, in order.
fn object_kids(o: &Object) -> (ks: Vec<Gc>)
    ensures
        ks@ == kids(*o),
{
    let mut ks: Vec<Gc> = Vec::new();
    match o {
        Object::Pair(pv) => {
            ks.push(pv.fst);
            ks.push(pv.snd);
        },
        Object::Proc(Proc::Reapply(g)) => {
            ks.push(*g);
        },
        Object::Proc(Proc::Closure(c)) => {
            ks.push(c.pattern);
            ks.push(c.body);
            ks.push(c.lexical);
            ks.push(c.dynamic);
        },
        _ => {},
    }
    assert(ks@ =~= kids(*o));
    ks
}

impl Heap {
    /// The mark phase from one root: a worklist traversal with a seen-set
    /// that flips every slot reachable from `pointer` to `Marked`, keeping
    /// object and stamp.  Fails with `Error::Pointer` exactly when the
    /// traversal meets a pointer that does not resolve (an invalid root, or
    /// a dangling sub-reference); the slots already visited stay marked.
    pub fn mark(&mut self, pointer: Gc) -> (r: Result<(), Error>)
        requires
            old(self).wf(),
        ensures
            final(self).wf(),
            final(self).time == old(self).time,
            same_content(old(self).nodes@, final(self).nodes@),
            flips_only(old(self).nodes@, final(self).nodes@),
            match r {
                Ok(()) => all_reach_resolve(old(self).nodes@, pointer) && mark_result(
                    old(self).nodes@,
                    pointer,
                    final(self).nodes@,
                ),
                Err(e) => e is Pointer && !all_reach_resolve(old(self).nodes@, pointer),
            },
    {
        let ghost orig = old(self).nodes@;
        let len = self.nodes.len();
        let mut seen: Vec<bool> = vec![false; len];
        let mut work: Vec<Gc> = Vec::new();
        work.push(pointer);
        proof {
            lemma_reach_refl(orig, pointer);
            assert(work@[0] == pointer);
            assert(work@.contains(pointer));
        }
        while work.len() > 0
            invariant
                orig == old(self).nodes@,
                nodes_wf(orig, old(self).time),
                self.time == old(self).time,
                self.nodes@.len() == len,
                orig.len() == len,
                seen@.len() == len,
                same_content(orig, self.nodes@),
                flips_only(orig, self.nodes@),
                forall|j: int| 0 <= j < work@.len() ==> reach(orig, pointer, #[trigger] work@[j]),
                work@.contains(pointer) || (resolves(orig, pointer) && seen@[pointer.index as int]),
                forall|i: int|
                    0 <= i < len && seen@[i] ==> #[trigger] slot_settled(orig, work@, seen@, i),
                forall|i: int|
                    0 <= i < len && #[trigger] seen@[i] ==> node_is_full(orig[i]) && self.nodes@[i]
                        is Marked && reach(orig, pointer, ptr_of(orig, i)),
                forall|i: int|
                    0 <= i < len && #[trigger] self.nodes@[i] is Marked ==> orig[i] is Marked
                        || seen@[i],
            decreases 5 * count_false(seen@) + work@.len(),
        {
            let ghost work0 = work@;
            let ghost seen0 = seen@;
            let p = match work.pop() {
                Some(p) => p,
                None => {
                    proof {
                        assert(false);
                    }
                    pointer
                },
            };
            proof {
                assert(work0.contains(p)) by {
                    assert(work0[work0.len() - 1] == p);
                }
            }
            if p.index >= len {
                proof {
                    lemma_wf_same_content(orig, self.nodes@, old(self).time);
                }
                return Err(Error::Pointer);
            }
            let full_match = match &self.nodes[p.index] {
                Node::Occupied(_, t) => *t == p.timestamp,
                Node::Marked(_, t) => *t == p.timestamp,
                Node::Empty => false,
            };
            if !full_match {
                proof {
                    assert(!resolves(self.nodes@, p));
                    assert(node_same(orig[p.index as int], self.nodes@[p.index as int]));
                    assert(!resolves(orig, p));
                    lemma_wf_same_content(orig, self.nodes@, old(self).time);
                }
                return Err(Error::Pointer);
            }
            proof {
                assert(resolves(self.nodes@, p));
                assert(node_same(orig[p.index as int], self.nodes@[p.index as int]));
                assert(resolves(orig, p));
                assert(ptr_of(orig, p.index as int) == p);
            }
            if seen[p.index] {
                // already processed: everything it references is settled
                proof {
                    assert forall|j: int|
                        0 <= j < work@.len() implies reach(orig, pointer, #[trigger] work@[j]) by {
                        assert(work@[j] == work0[j]);
                    }
                    assert(work@.contains(pointer) || (resolves(orig, pointer)
                        && seen@[pointer.index as int])) by {
                        if work0.contains(pointer) {
                            let jj = choose|jj: int|
                                0 <= jj < work0.len() && work0[jj] == pointer;
                            if jj < work0.len() - 1 {
                                assert(work@[jj] == pointer);
                                assert(work@.contains(pointer));
                            } else {
                                assert(p == pointer);
                            }
                        }
                    }
                    assert forall|i: int|
                        0 <= i < len && seen@[i] implies #[trigger] slot_settled(
                        orig,
                        work@,
                        seen@,
                        i,
                    ) by {
                        assert(slot_settled(orig, work0, seen0, i));
                        assert forall|k: int|
                            0 <= k < kids(node_object(orig[i])).len() implies kid_settled(
                            orig,
                            work@,
                            seen@,
                            #[trigger] kids(node_object(orig[i]))[k],
                        ) by {
                            let c = kids(node_object(orig[i]))[k];
                            assert(kid_settled(orig, work0, seen0, c));
                            if work0.contains(c) {
                                let jj = choose|jj: int| 0 <= jj < work0.len() && work0[jj] == c;
                                if jj < work0.len() - 1 {
                                    assert(work@[jj] == c);
                                    assert(work@.contains(c));
                                } else {
                                    assert(c == p);
                                }
                            }
                        }
                    }
                }
            } else {
                seen[p.index] = true;
                proof {
                    lemma_count_false_update(seen0, p.index as int);
                }
                // gather the object's sub-references, then flip the slot
                let ks = match &self.nodes[p.index] {
                    Node::Occupied(o, _) => object_kids(o),
                    Node::Marked(o, _) => object_kids(o),
                    Node::Empty => {
                        proof {
                            assert(false);
                        }
                        Vec::new()
                    },
                };
                proof {
                    assert(node_object(self.nodes@[p.index as int]) == node_object(
                        orig[p.index as int],
                    ));
                    assert(ks@ == kids(node_object(orig[p.index as int])));
                    assert(node_object(orig[p.index as int]) == object_at(orig, p));
                }
                let ghost work1 = work@;
                let mut k: usize = 0;
                while k < ks.len()
                    invariant
                        k <= ks.len(),
                        ks@ == kids(object_at(orig, p)),
                        work@ == work1 + ks@.take(k as int),
                        reach(orig, pointer, p),
                        resolves(orig, p),
                        forall|j: int|
                            0 <= j < work1.len() ==> reach(orig, pointer, #[trigger] work1[j]),
                        forall|j: int|
                            0 <= j < work@.len() ==> reach(orig, pointer, #[trigger] work@[j]),
                    decreases ks@.len() - k,
                {
                    let c = ks[k];
                    proof {
                        assert(kids(object_at(orig, p)).contains(c)) by {
                            assert(kids(object_at(orig, p))[k as int] == c);
                        }
                        lemma_reach_step(orig, pointer, p, c);
                    }
                    work.push(c);
                    proof {
                        assert(work@ =~= work1 + ks@.take(k as int + 1));
                    }
                    k = k + 1;
                }
                proof {
                    assert(work@ == work1 + ks@) by {
                        assert(ks@.take(ks@.len() as int) =~= ks@);
                    }
                }
                // flip the slot to Marked, preserving object and stamp
                let mut tmp = Node::Empty;
                core::mem::swap(&mut tmp, &mut self.nodes[p.index]);
                let ghost nodes_mid = self.nodes@;
                match tmp {
                    Node::Occupied(o, t) => {
                        self.nodes[p.index] = Node::Marked(o, t);
                    },
                    Node::Marked(o, t) => {
                        self.nodes[p.index] = Node::Marked(o, t);
                    },
                    Node::Empty => {
                        proof {
                            assert(false);
                        }
                    },
                }
                proof {
                    let cur = self.nodes@;
                    assert(cur[p.index as int] is Marked);
                    assert(node_same(orig[p.index as int], cur[p.index as int]));
                    // content and flip framing
                    assert forall|i: int| 0 <= i < len implies #[trigger] node_same(
                        orig[i],
                        cur[i],
                    ) by {
                        if i != p.index as int {
                            assert(cur[i] == nodes_mid[i]);
                        }
                    }
                    assert(same_content(orig, cur));
                    assert(flips_only(orig, cur));
                    // queue entries are still reachable
                    assert forall|j: int|
                        0 <= j < work@.len() implies reach(orig, pointer, #[trigger] work@[j]) by {}
                    // the root is settled
                    assert(work@.contains(pointer) || (resolves(orig, pointer)
                        && seen@[pointer.index as int])) by {
                        if pointer == p {
                        } else if work0.contains(pointer) {
                            let jj = choose|jj: int|
                                0 <= jj < work0.len() && work0[jj] == pointer;
                            if jj < work0.len() - 1 {
                                assert(work1[jj] == pointer);
                                assert(work@[jj] == pointer);
                                assert(work@.contains(pointer));
                            } else {
                                assert(p == pointer);
                            }
                        } else {
                            assert(seen0[pointer.index as int]);
                        }
                    }
                    // seen slots stay settled
                    assert forall|i: int|
                        0 <= i < len && seen@[i] implies #[trigger] slot_settled(
                        orig,
                        work@,
                        seen@,
                        i,
                    ) by {
                        if i == p.index as int {
                            assert forall|k2: int|
                                0 <= k2 < kids(node_object(orig[i])).len() implies kid_settled(
                                orig,
                                work@,
                                seen@,
                                #[trigger] kids(node_object(orig[i]))[k2],
                            ) by {
                                let c = kids(node_object(orig[i]))[k2];
                                assert(work@[work1.len() + k2] == c);
                                assert(work@.contains(c));
                            }
                        } else {
                            assert(seen0[i]);
                            assert(slot_settled(orig, work0, seen0, i));
                            assert forall|k2: int|
                                0 <= k2 < kids(node_object(orig[i])).len() implies kid_settled(
                                orig,
                                work@,
                                seen@,
                                #[trigger] kids(node_object(orig[i]))[k2],
                            ) by {
                                let c = kids(node_object(orig[i]))[k2];
                                assert(kid_settled(orig, work0, seen0, c));
                                if work0.contains(c) {
                                    let jj = choose|jj: int|
                                        0 <= jj < work0.len() && work0[jj] == c;
                                    if jj < work0.len() - 1 {
                                        assert(work@[jj] == c);
                                        assert(work@.contains(c));
                                    } else {
                                        assert(c == p);
                                        assert(resolves(orig, c) && seen@[c.index as int]);
                                    }
                                } else {
                                    assert(resolves(orig, c) && seen0[c.index as int]);
                                }
                            }
                        }
                    }
                    // marked slots are exactly the seen or originally marked ones
                    assert forall|i: int|
                        0 <= i < len && #[trigger] seen@[i] implies node_is_full(orig[i])
                        && cur[i] is Marked && reach(orig, pointer, ptr_of(orig, i)) by {
                        if i == p.index as int {
                            assert(ptr_of(orig, i) == p);
                        } else {
                            assert(seen0[i]);
                            assert(cur[i] == nodes_mid[i]);
                        }
                    }
                }
            }
        }
        proof {
            // the queue is empty: the seen set is closed, so everything
            // reachable is seen, hence marked
            assert(resolves(orig, pointer) && seen@[pointer.index as int]);
            assert forall|i: int|
                0 <= i < len && seen@[i] implies #[trigger] slot_settled(
                orig,
                Seq::<Gc>::empty(),
                seen@,
                i,
            ) by {
                assert(slot_settled(orig, work@, seen@, i));
                assert forall|k: int|
                    0 <= k < kids(node_object(orig[i])).len() implies kid_settled(
                    orig,
                    Seq::<Gc>::empty(),
                    seen@,
                    #[trigger] kids(node_object(orig[i]))[k],
                ) by {
                    let c = kids(node_object(orig[i]))[k];
                    assert(kid_settled(orig, work@, seen@, c));
                    assert(work@.len() == 0);
                    assert(!work@.contains(c));
                }
            }
            assert forall|p2: Gc| #[trigger] reach(orig, pointer, p2) implies resolves(
                orig,
                p2,
            ) && seen@[p2.index as int] by {
                let n = choose|n: nat| reach_n(orig, pointer, p2, n);
                lemma_reach_n_settled(orig, pointer, seen@, p2, n);
            }
            assert forall|i: int|
                0 <= i < len implies ((#[trigger] self.nodes@[i] is Marked) <==> (orig[i] is Marked
                || (node_is_full(orig[i]) && reach(orig, pointer, ptr_of(orig, i))))) by {
                if self.nodes@[i] is Marked {
                    if !(orig[i] is Marked) {
                        assert(seen@[i]);
                    }
                }
                if node_is_full(orig[i]) && reach(orig, pointer, ptr_of(orig, i)) {
                    assert(resolves(orig, ptr_of(orig, i)) && seen@[i]);
                }
                if orig[i] is Marked {
                    assert(node_same(orig[i], self.nodes@[i]));
                    assert(flips_only(orig, self.nodes@));
                    assert(self.nodes@[i] == orig[i] || self.nodes@[i] is Marked);
                }
            }
            lemma_wf_same_content(orig, self.nodes@, old(self).time);
        }
        Ok(())
    }
}

/// `p` is reachable from one of the first `j` roots.
pub open spec fn root_reaches_upto(nodes: Seq<Node>, roots: Seq<Gc>, j: int, p: Gc) -> bool {
    exists|k: int| 0 <= k < j && k < roots.len() && reach(nodes, #[trigger] roots[k], p)
}

/// When occupied slots are exactly the occupied dead slots of `a`, the
/// occupied count of `b` is the dead count of `a`.
proof fn lemma_count_occupied_matches_dead(a: Seq<Node>, roots: Seq<Gc>, b: Seq<Node>, n: int)
    requires
        0 <= n <= a.len(),
        b.len() == a.len(),
        forall|i: int|
            0 <= i < a.len() ==> ((#[trigger] b[i] is Occupied) <==> (a[i] is Occupied
                && !slot_live(a, roots, i))),
    ensures
        count_occupied_upto(b, n) == count_dead_upto(a, roots, n),
    decreases n,
{
    if n > 0 {
        lemma_count_occupied_matches_dead(a, roots, b, n - 1);
    }
}

impl Heap {
    /// The sweep phase: reverts every marked slot to occupied, reclaims every
    /// occupied (unreached) slot, and reports how many it reclaimed.  The
    /// stamp counter advances once, so every pointer into a reclaimed and
    /// later reused slot keeps failing validation.  The marked slots must be
    /// closed under sub-references: the state a completed mark phase leaves.
    pub fn sweep(&mut self) -> (count: usize)
        requires
            old(self).wf(),
            old(self).time < usize::MAX,
            marked_closed(old(self).nodes@),
        ensures
            final(self).wf(),
            final(self).unmarked(),
            final(self).time == old(self).time + 1,
            final(self).nodes@.len() == old(self).nodes@.len(),
            forall|i: int|
                0 <= i < old(self).nodes@.len() ==> final(self).nodes@[i] == sweep_node(
                    #[trigger] old(self).nodes@[i],
                ),
            count == count_occupied(old(self).nodes@),
    {
        let ghost orig = old(self).nodes@;
        let len = self.nodes.len();
        let mut count: usize = 0;
        let mut i: usize = 0;
        while i < len
            invariant
                orig == old(self).nodes@,
                self.time == old(self).time,
                self.nodes@.len() == len,
                orig.len() == len,
                i <= len,
                count == count_occupied_upto(orig, i as int),
                count <= i,
                forall|j: int| 0 <= j < i ==> self.nodes@[j] == sweep_node(#[trigger] orig[j]),
                forall|j: int| i <= j < len ==> self.nodes@[j] == #[trigger] orig[j],
            decreases len - i,
        {
            let mut tmp = Node::Empty;
            core::mem::swap(&mut tmp, &mut self.nodes[i]);
            match tmp {
                Node::Empty => {},
                Node::Occupied(_, _) => {
                    count = count + 1;
                },
                Node::Marked(o, t) => {
                    self.nodes[i] = Node::Occupied(o, t);
                },
            }
            i = i + 1;
        }
        self.time = self.time + 1;
        proof {
            let cur = self.nodes@;
            let time1 = self.time;
            assert forall|jj: int| 0 <= jj < len implies !(#[trigger] cur[jj] is Marked) by {
                assert(cur[jj] == sweep_node(orig[jj]));
            }
            assert forall|j: int| 0 <= j < len implies #[trigger] slot_wf(cur, time1, j) by {
                assert(cur[j] == sweep_node(orig[j]));
                assert(slot_wf(orig, old(self).time, j));
                match orig[j] {
                    Node::Empty => {},
                    Node::Occupied(_, _) => {},
                    Node::Marked(o, t) => {
                        assert(object_wf(orig, o, t));
                        assert(slot_kids_marked(orig, j));
                        assert(node_object(orig[j]) == o);
                        assert forall|k: int| 0 <= k < kids(o).len() implies resolves(
                            cur,
                            #[trigger] kids(o)[k],
                        ) && kids(o)[k].timestamp < t by {
                            let c = kids(o)[k];
                            assert(kid_marked(orig, c));
                            assert(cur[c.index as int] == sweep_node(orig[c.index as int]));
                        }
                        match o {
                            Object::Pair(pv) => {
                                assert(kids(o)[1] == pv.snd);
                                assert(kid_marked(orig, kids(o)[1]));
                                assert(cur[pv.snd.index as int] == sweep_node(
                                    orig[pv.snd.index as int],
                                ));
                                assert(object_at(cur, pv.snd) == object_at(orig, pv.snd));
                            },
                            _ => {},
                        }
                        assert(object_wf(cur, o, t));
                    },
                }
            }
        }
        count
    }

    /// One whole collection cycle: marks everything reachable from the root
    /// set, then sweeps.  On success every live slot survives untouched,
    /// every other slot is reclaimed, and the reclaimed count is returned.
    /// Fails with `Error::Pointer`, leaving the marks in place, exactly when
    /// some pointer reachable from a root does not resolve (a stale root kept
    /// across an earlier collection, or a dangling sub-reference): that is a
    /// caller bug the collector does not recover from.
    pub fn collect(&mut self, roots: &Vec<Gc>) -> (r: Result<usize, Error>)
        requires
            old(self).wf(),
            old(self).unmarked(),
            old(self).time < usize::MAX,
        ensures
            final(self).wf(),
            final(self).nodes@.len() == old(self).nodes@.len(),
            match r {
                Ok(count) => {
                    &&& all_live_resolve(old(self).nodes@, roots@)
                    &&& final(self).unmarked()
                    &&& final(self).time == old(self).time + 1
                    &&& forall|i: int|
                        0 <= i < old(self).nodes@.len() ==> final(self).nodes@[i] == collect_node(
                            old(self).nodes@,
                            roots@,
                            i,
                        )
                    &&& count == count_dead_upto(
                        old(self).nodes@,
                        roots@,
                        old(self).nodes@.len() as int,
                    )
                },
                Err(e) => {
                    &&& e is Pointer
                    &&& !all_live_resolve(old(self).nodes@, roots@)
                    &&& final(self).time == old(self).time
                    &&& same_content(old(self).nodes@, final(self).nodes@)
                    &&& flips_only(old(self).nodes@, final(self).nodes@)
                },
            },
    {
        let ghost orig = old(self).nodes@;
        let len = self.nodes.len();
        let mut j: usize = 0;
        while j < roots.len()
            invariant
                orig == old(self).nodes@,
                nodes_wf(orig, old(self).time),
                forall|i: int| 0 <= i < len ==> !(#[trigger] orig[i] is Marked),
                self.time == old(self).time,
                self.nodes@.len() == len,
                orig.len() == len,
                j <= roots@.len(),
                same_content(orig, self.nodes@),
                flips_only(orig, self.nodes@),
                forall|k: int| 0 <= k < j ==> #[trigger] all_reach_resolve(orig, roots@[k]),
                forall|i: int|
                    0 <= i < len ==> ((#[trigger] self.nodes@[i] is Marked) <==> (node_is_full(
                        orig[i],
                    ) && root_reaches_upto(orig, roots@, j as int, ptr_of(orig, i)))),
            decreases roots@.len() - j,
        {
            let root = roots[j];
            let ghost pre = self.nodes@;
            proof {
                lemma_wf_same_content(orig, pre, old(self).time);
                lemma_reach_same_content(orig, pre, root);
                lemma_resolution_same_content(orig, pre);
            }
            let outcome = self.mark(root);
            let ghost post = self.nodes@;
            proof {
                // transfer content equalities through this mark pass
                assert(same_content(pre, post));
                assert forall|i: int| 0 <= i < len implies #[trigger] node_same(
                    orig[i],
                    post[i],
                ) by {
                    assert(node_same(orig[i], pre[i]));
                    assert(node_same(pre[i], post[i]));
                }
                assert(same_content(orig, post));
                assert forall|i: int|
                    0 <= i < len implies (#[trigger] post[i] == orig[i] || (orig[i] is Occupied
                    && post[i] == Node::Marked(node_object(orig[i]), node_stamp(orig[i])))) by {
                    assert(pre[i] == orig[i] || (orig[i] is Occupied && pre[i] == Node::Marked(
                        node_object(orig[i]),
                        node_stamp(orig[i]),
                    )));
                    assert(post[i] == pre[i] || (pre[i] is Occupied && post[i] == Node::Marked(
                        node_object(pre[i]),
                        node_stamp(pre[i]),
                    )));
                }
            }
            match outcome {
                Ok(()) => {
                    proof {
                        // every pointer reachable from this root resolves
                        assert forall|p: Gc| #[trigger] reach(orig, root, p) implies resolves(
                            orig,
                            p,
                        ) by {
                            assert(reach(pre, root, p));
                            assert(resolves(pre, p));
                        }
                        assert(all_reach_resolve(orig, roots@[j as int]));
                        // the marked set now covers the first j + 1 roots
                        assert forall|i: int|
                            0 <= i < len implies ((#[trigger] post[i] is Marked) <==> (
                        node_is_full(orig[i]) && root_reaches_upto(
                            orig,
                            roots@,
                            j as int + 1,
                            ptr_of(orig, i),
                        ))) by {
                            assert(node_same(orig[i], pre[i]));
                            assert(node_is_full(pre[i]) == node_is_full(orig[i]));
                            if node_is_full(orig[i]) {
                                assert(ptr_of(pre, i) == ptr_of(orig, i));
                            }
                            if post[i] is Marked {
                                assert(pre[i] is Marked || (node_is_full(pre[i]) && reach(
                                    pre,
                                    root,
                                    ptr_of(pre, i),
                                )));
                                if pre[i] is Marked {
                                    assert(root_reaches_upto(
                                        orig,
                                        roots@,
                                        j as int,
                                        ptr_of(orig, i),
                                    ));
                                    let k = choose|k: int|
                                        0 <= k < j && k < roots@.len() && reach(
                                            orig,
                                            roots@[k],
                                            ptr_of(orig, i),
                                        );
                                    assert(root_reaches_upto(
                                        orig,
                                        roots@,
                                        j as int + 1,
                                        ptr_of(orig, i),
                                    ));
                                } else {
                                    assert(reach(orig, root, ptr_of(orig, i)));
                                    assert(roots@[j as int] == root);
                                    assert(root_reaches_upto(
                                        orig,
                                        roots@,
                                        j as int + 1,
                                        ptr_of(orig, i),
                                    ));
                                }
                            }
                            if node_is_full(orig[i]) && root_reaches_upto(
                                orig,
                                roots@,
                                j as int + 1,
                                ptr_of(orig, i),
                            ) {
                                let k = choose|k: int|
                                    0 <= k < j + 1 && k < roots@.len() && reach(
                                        orig,
                                        roots@[k],
                                        ptr_of(orig, i),
                                    );
                                if k < j {
                                    assert(root_reaches_upto(
                                        orig,
                                        roots@,
                                        j as int,
                                        ptr_of(orig, i),
                                    ));
                                    assert(pre[i] is Marked);
                                    assert(node_same(pre[i], post[i]));
                                    assert(post[i] == pre[i] || post[i] is Marked);
                                } else {
                                    assert(reach(orig, root, ptr_of(orig, i)));
                                    assert(reach(pre, root, ptr_of(pre, i)));
                                }
                            }
                        }
                    }
                },
                Err(e) => {
                    proof {
                        let p = choose|p: Gc| reach(pre, root, p) && !resolves(pre, p);
                        assert(reach(orig, root, p));
                        assert(!resolves(orig, p));
                        assert(roots@[j as int] == root);
                        assert(root_reaches(orig, roots@, p)) by {
                            assert(reach(orig, roots@[j as int], p));
                        }
                        lemma_wf_same_content(orig, post, old(self).time);
                    }
                    return Err(e);
                },
            }
            j = j + 1;
        }
        let ghost marked = self.nodes@;
        proof {
            // every pointer reachable from the root set resolves
            assert forall|p: Gc| #[trigger] root_reaches(orig, roots@, p) implies resolves(
                orig,
                p,
            ) by {
                let k = choose|k: int| 0 <= k < roots@.len() && reach(orig, roots@[k], p);
                assert(all_reach_resolve(orig, roots@[k]));
            }
            // the marked slots are exactly the live slots, and they are
            // closed under sub-references
            assert forall|i: int|
                0 <= i < len implies ((#[trigger] marked[i] is Marked) <==> slot_live(
                orig,
                roots@,
                i,
            )) by {
                assert((marked[i] is Marked) <==> (node_is_full(orig[i]) && root_reaches_upto(
                    orig,
                    roots@,
                    roots@.len() as int,
                    ptr_of(orig, i),
                )));
                if node_is_full(orig[i]) {
                    assert(root_reaches_upto(orig, roots@, roots@.len() as int, ptr_of(orig, i))
                        <==> root_reaches(orig, roots@, ptr_of(orig, i))) by {
                        if root_reaches(orig, roots@, ptr_of(orig, i)) {
                            let k = choose|k: int|
                                0 <= k < roots@.len() && reach(orig, roots@[k], ptr_of(orig, i));
                            assert(root_reaches_upto(
                                orig,
                                roots@,
                                roots@.len() as int,
                                ptr_of(orig, i),
                            ));
                        }
                    }
                }
            }
            lemma_wf_same_content(orig, marked, old(self).time);
            assert forall|i: int|
                0 <= i < len && marked[i] is Marked implies #[trigger] slot_kids_marked(
                marked,
                i,
            ) by {
                assert(slot_live(orig, roots@, i));
                let q = ptr_of(orig, i);
                assert(resolves(orig, q));
                let k = choose|k: int| 0 <= k < roots@.len() && reach(orig, roots@[k], q);
                assert(node_same(orig[i], marked[i]));
                assert(node_object(marked[i]) == node_object(orig[i]));
                assert(node_object(orig[i]) == object_at(orig, q));
                assert forall|k2: int|
                    0 <= k2 < kids(node_object(marked[i])).len() implies kid_marked(
                    marked,
                    #[trigger] kids(node_object(marked[i]))[k2],
                ) by {
                    let c = kids(object_at(orig, q))[k2];
                    assert(kids(object_at(orig, q)).contains(c));
                    lemma_reach_step(orig, roots@[k], q, c);
                    assert(root_reaches(orig, roots@, c)) by {
                        assert(reach(orig, roots@[k], c));
                    }
                    assert(resolves(orig, c));
                    assert(ptr_of(orig, c.index as int) == c);
                    assert(slot_live(orig, roots@, c.index as int));
                    assert(marked[c.index as int] is Marked);
                    assert(node_same(orig[c.index as int], marked[c.index as int]));
                    assert(resolves(marked, c));
                }
            }
        }
        let count = self.sweep();
        proof {
            let fin = self.nodes@;
            assert forall|i: int| 0 <= i < len implies fin[i] == collect_node(
                orig,
                roots@,
                i,
            ) by {
                assert(fin[i] == sweep_node(marked[i]));
                assert((marked[i] is Marked) <==> slot_live(orig, roots@, i));
                assert(marked[i] == orig[i] || (orig[i] is Occupied && marked[i] == Node::Marked(
                    node_object(orig[i]),
                    node_stamp(orig[i]),
                )));
                if slot_live(orig, roots@, i) {
                    assert(marked[i] is Marked);
                    assert(!(orig[i] is Marked));
                    assert(marked[i] == Node::Marked(node_object(orig[i]), node_stamp(orig[i])));
                    assert(fin[i] == Node::Occupied(node_object(orig[i]), node_stamp(orig[i])));
                    assert(orig[i] == Node::Occupied(node_object(orig[i]), node_stamp(orig[i])));
                } else {
                    assert(!(marked[i] is Marked));
                    assert(marked[i] == orig[i]);
                }
            }
            assert(count == count_occupied(marked));
            assert forall|i: int|
                0 <= i < len implies ((#[trigger] marked[i] is Occupied) <==> (orig[i] is Occupied
                && !slot_live(orig, roots@, i))) by {
                assert(node_same(orig[i], marked[i]));
                if marked[i] is Occupied {
                    assert(!(marked[i] is Marked));
                    assert(marked[i] == orig[i]);
                }
                if orig[i] is Occupied && !slot_live(orig, roots@, i) {
                    assert(!(marked[i] is Marked));
                    assert(marked[i] == orig[i]);
                }
            }
            lemma_count_occupied_matches_dead(orig, roots@, marked, len as int);
        }
        Ok(count)
    }
}

} // verus!

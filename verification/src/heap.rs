//! The arena heap: a fixed-length sequence of slots holding tagged objects,
//! addressed by generation-stamped pointers.  A pointer is valid only while
//! its stamp matches the stamp currently recorded in its slot, so a slot that
//! is reclaimed and reused never aliases an old pointer.

use vstd::prelude::*;

use crate::v0::Error;

verus! {

/// A generational pointer into the arena heap: a slot index plus the stamp
/// the slot carried when the pointee was allocated.  Equality is structural.
#[derive(Debug, Clone, Copy, PartialEq, Eq, Hash, Structural)]
pub struct Gc {
    pub index: usize,
    pub timestamp: usize,
}

/// A cons cell.  `is_list` is computed once at construction: true exactly
/// when the `snd` chain terminates in `Unit`.  Pairs are never mutated, so
/// the cached flag stays valid for the pair's whole lifetime.
#[derive(Debug, Clone, Copy, PartialEq, Eq, Structural)]
pub struct Pair {
    pub fst: Gc,
    pub snd: Gc,
    pub is_list: bool,
}

/// The fixed set of built-in primitives of the evaluation protocol.
#[derive(Debug, Clone, Copy, PartialEq, Eq, Structural)]
pub enum NativeTag {
    Pair,
    Fst,
    Snd,
    Eval,
    Init,
    Shift,
    Reset,
    And,
    Or,
    Not,
}

/// A user-defined procedure: a parameter-binding pattern, a body, and the
/// lexical and dynamic environments captured at creation time.
#[derive(Debug, Clone, Copy, PartialEq, Eq, Structural)]
pub struct Closure {
    pub pattern: Gc,
    pub body: Gc,
    pub lexical: Gc,
    pub dynamic: Gc,
}

/// A procedure value: a built-in, a "re-apply this" indirection handed back
/// across a continuation boundary, or a user-defined closure.
#[derive(Debug, Clone, Copy, PartialEq, Eq, Structural)]
pub enum Proc {
    Native(NativeTag),
    Reapply(Gc),
    Closure(Closure),
}

/// A tagged value stored in a heap slot.  Values are immutable once
/// constructed; every inter-object reference is a `Gc` into the same heap.
#[derive(Debug)]
pub enum Object {
    Unit,
    Bool(bool),
    Symbol(String),
    Pair(Pair),
    Proc(Proc),
}

/// One slot of the arena.  `Marked` exists only transiently during a
/// collection cycle, between the mark and sweep passes.
#[derive(Debug)]
pub enum Node {
    Empty,
    Occupied(Object, usize),
    Marked(Object, usize),
}

/// The arena heap: a fixed-length ordered sequence of slots and a
/// monotonically increasing stamp counter.
#[derive(Debug)]
pub struct Heap {
    pub nodes: Vec<Node>,
    pub time: usize,
}

impl Object {
    /// True exactly on the `Unit` value.
    pub fn is_unit(&self) -> (r: bool)
        ensures
            r == (*self is Unit),
    {
        match self {
            Object::Unit => true,
            _ => false,
        }
    }
}

impl Node {
    /// True exactly on an empty slot.
    pub fn is_none(&self) -> (r: bool)
        ensures
            r == (*self is Empty),
    {
        match self {
            Node::Empty => true,
            _ => false,
        }
    }

    /// True exactly on a slot holding a live, unmarked object.
    pub fn is_some(&self) -> (r: bool)
        ensures
            r == (*self is Occupied),
    {
        match self {
            Node::Occupied(_, _) => true,
            _ => false,
        }
    }

    /// True exactly on a slot marked reachable by an ongoing collection.
    pub fn is_mark(&self) -> (r: bool)
        ensures
            r == (*self is Marked),
    {
        match self {
            Node::Marked(_, _) => true,
            _ => false,
        }
    }
}

/// A slot holds an object: it is occupied or marked, not empty.
pub open spec fn node_is_full(n: Node) -> bool {
    n is Occupied || n is Marked
}

/// The object a full slot holds.
pub open spec fn node_object(n: Node) -> Object {
    match n {
        Node::Occupied(o, _) => o,
        Node::Marked(o, _) => o,
        Node::Empty => arbitrary(),
    }
}

/// The stamp a full slot carries.
pub open spec fn node_stamp(n: Node) -> usize {
    match n {
        Node::Occupied(_, t) => t,
        Node::Marked(_, t) => t,
        Node::Empty => arbitrary(),
    }
}

/// A pointer resolves when its slot is full and carries the pointer's stamp.
/// Dereferencing succeeds exactly on resolving pointers.
pub open spec fn resolves(nodes: Seq<Node>, p: Gc) -> bool {
    &&& p.index < nodes.len()
    &&& node_is_full(nodes[p.index as int])
    &&& node_stamp(nodes[p.index as int]) == p.timestamp
}

/// The object a resolving pointer designates.
pub open spec fn object_at(nodes: Seq<Node>, p: Gc) -> Object {
    node_object(nodes[p.index as int])
}

/// The unique pointer that resolves to slot `i` while the slot is full.
pub open spec fn ptr_of(nodes: Seq<Node>, i: int) -> Gc {
    Gc { index: i as usize, timestamp: node_stamp(nodes[i]) }
}

/// The sub-references embedded in an object: both fields of a pair, the
/// wrapped value of a re-apply, all four fields of a closure.  Scalars and
/// built-ins are leaves.
pub open spec fn kids(o: Object) -> Seq<Gc> {
    match o {
        Object::Pair(pv) => seq![pv.fst, pv.snd],
        Object::Proc(Proc::Reapply(g)) => seq![g],
        Object::Proc(Proc::Closure(c)) => seq![c.pattern, c.body, c.lexical, c.dynamic],
        _ => seq![],
    }
}

/// The list flag a pair whose `snd` is `p` must cache: true when `p` holds
/// `Unit` or a pair that is itself a proper list.
pub open spec fn list_flag(nodes: Seq<Node>, p: Gc) -> bool {
    match object_at(nodes, p) {
        Object::Unit => true,
        Object::Pair(q) => q.is_list,
        _ => false,
    }
}

/// An object is coherent for a slot stamped `stamp`: all its sub-references
/// resolve, were allocated strictly earlier, and a pair caches the correct
/// list flag.
pub open spec fn object_wf(nodes: Seq<Node>, o: Object, stamp: usize) -> bool {
    &&& forall|k: int|
        0 <= k < kids(o).len() ==> resolves(nodes, #[trigger] kids(o)[k]) && kids(
            o,
        )[k].timestamp < stamp
    &&& (o matches Object::Pair(pv) ==> pv.is_list == list_flag(nodes, pv.snd))
}

/// Slot `i` is coherent: an empty slot, or a full slot whose stamp is below
/// the heap's counter and whose object is coherent.
pub open spec fn slot_wf(nodes: Seq<Node>, time: usize, i: int) -> bool {
    match nodes[i] {
        Node::Empty => true,
        Node::Occupied(o, t) => t < time && object_wf(nodes, o, t),
        Node::Marked(o, t) => t < time && object_wf(nodes, o, t),
    }
}

/// The heap invariant: every slot is coherent.
pub open spec fn nodes_wf(nodes: Seq<Node>, time: usize) -> bool {
    forall|i: int| 0 <= i < nodes.len() ==> #[trigger] slot_wf(nodes, time, i)
}

/// The number of empty slots among the first `n`.
pub open spec fn count_empty_upto(nodes: Seq<Node>, n: int) -> nat
    decreases n,
{
    if n <= 0 {
        0
    } else {
        count_empty_upto(nodes, n - 1) + (if nodes[n - 1] is Empty {
            1nat
        } else {
            0nat
        })
    }
}

/// The number of empty slots: how many allocations can still succeed.
pub open spec fn count_empty(nodes: Seq<Node>) -> nat {
    count_empty_upto(nodes, nodes.len() as int)
}

/// The index of the first empty slot at or after `i`, or the length when
/// every slot from `i` on is full.
pub open spec fn first_empty_from(nodes: Seq<Node>, i: int) -> int
    decreases nodes.len() - i when 0 <= i <= nodes.len()
{
    if i >= nodes.len() {
        nodes.len() as int
    } else if nodes[i] is Empty {
        i
    } else {
        first_empty_from(nodes, i + 1)
    }
}

/// The index the next allocation will use: the first empty slot.
pub open spec fn first_empty(nodes: Seq<Node>) -> int {
    first_empty_from(nodes, 0)
}

/// How one successful allocation transforms the heap: the returned pointer
/// names the first empty slot with the pre-state stamp, that slot now holds
/// the object, and the stamp counter advanced by one.
pub open spec fn put_ok(pre: Heap, post: Heap, p: Gc, o: Object) -> bool {
    &&& first_empty(pre.nodes@) < pre.nodes@.len()
    &&& p.index == first_empty(pre.nodes@)
    &&& p.timestamp == pre.time
    &&& post.nodes@ == pre.nodes@.update(p.index as int, Node::Occupied(o, pre.time))
    &&& post.time == pre.time + 1
}

impl Heap {
    /// The heap invariant as a predicate on the whole heap.
    pub open spec fn wf(&self) -> bool {
        nodes_wf(self.nodes@, self.time)
    }

    /// No collection cycle is in progress: no slot is marked.
    pub open spec fn unmarked(&self) -> bool {
        forall|i: int| 0 <= i < self.nodes@.len() ==> !(#[trigger] self.nodes@[i] is Marked)
    }

    /// A fresh heap of the given fixed capacity: every slot empty, the stamp
    /// counter at zero.
    pub fn with_capacity(capacity: usize) -> (h: Heap)
        ensures
            h.nodes@.len() == capacity,
            forall|i: int| 0 <= i < capacity ==> #[trigger] h.nodes@[i] is Empty,
            h.time == 0,
            h.wf(),
            h.unmarked(),
    {
        let mut nodes: Vec<Node> = Vec::with_capacity(capacity);
        let mut k: usize = 0;
        while k < capacity
            invariant
                k <= capacity,
                nodes@.len() == k,
                forall|i: int| 0 <= i < k ==> #[trigger] nodes@[i] is Empty,
            decreases capacity - k,
        {
            nodes.push(Node::Empty);
            k = k + 1;
        }
        let h = Heap { nodes, time: 0 };
        assert forall|i: int| 0 <= i < h.nodes@.len() implies #[trigger] slot_wf(
            h.nodes@,
            h.time,
            i,
        ) by {
            assert(h.nodes@[i] is Empty);
        }
        h
    }

    /// Allocates the object into the first empty slot, first-fit ascending,
    /// and returns its pointer; fails with `Error::Space` when every slot is
    /// full.  The heap never grows.
    pub fn put(&mut self, object: Object) -> (r: Result<Gc, Error>)
        requires
            old(self).wf(),
            old(self).time < usize::MAX,
            object_wf(old(self).nodes@, object, old(self).time),
        ensures
            final(self).wf(),
            final(self).nodes@.len() == old(self).nodes@.len(),
            match r {
                Ok(p) => put_ok(*old(self), *final(self), p, object),
                Err(e) => {
                    &&& e is Space
                    &&& first_empty(old(self).nodes@) == old(self).nodes@.len()
                    &&& final(self).nodes@ == old(self).nodes@
                    &&& final(self).time == old(self).time
                },
            },
    {
        let len = self.nodes.len();
        let mut index: usize = 0;
        while index < len
            invariant
                len == self.nodes@.len(),
                index <= len,
                self.nodes@ == old(self).nodes@,
                self.time == old(self).time,
                old(self).time < usize::MAX,
                nodes_wf(old(self).nodes@, old(self).time),
                object_wf(old(self).nodes@, object, old(self).time),
                forall|j: int| 0 <= j < index ==> !(#[trigger] self.nodes@[j] is Empty),
            decreases len - index,
        {
            if self.nodes[index].is_none() {
                proof {
                    lemma_first_empty_at(self.nodes@, index as int);
                }
                self.nodes[index] = Node::Occupied(object, self.time);
                let pointer = Gc { index, timestamp: self.time };
                self.time = self.time + 1;
                proof {
                    lemma_put_preserves_wf(old(self).nodes@, self.nodes@, old(self).time, index as int, object);
                }
                return Ok(pointer);
            }
            index = index + 1;
        }
        proof {
            lemma_first_empty_at(old(self).nodes@, len as int);
        }
        return Err(Error::Space);
    }

    /// Dereferences a pointer: the held object when the pointer resolves,
    /// `Error::Pointer` when its slot is empty, out of range, or stamped
    /// differently (a reclaimed or reused slot).
    pub fn get(&self, pointer: Gc) -> (r: Result<&Object, Error>)
        ensures
            match r {
                Ok(o) => resolves(self.nodes@, pointer) && *o == object_at(self.nodes@, pointer),
                Err(e) => e is Pointer && !resolves(self.nodes@, pointer),
            },
    {
        if pointer.index >= self.nodes.len() {
            return Err(Error::Pointer);
        }
        match &self.nodes[pointer.index] {
            Node::Occupied(object, timestamp) => {
                if pointer.timestamp != *timestamp {
                    Err(Error::Pointer)
                } else {
                    Ok(object)
                }
            },
            Node::Marked(object, timestamp) => {
                if pointer.timestamp != *timestamp {
                    Err(Error::Pointer)
                } else {
                    Ok(object)
                }
            },
            Node::Empty => Err(Error::Pointer),
        }
    }
}

/// A prefix holds at most as many empty slots as its length.
pub proof fn lemma_count_empty_upto_le(nodes: Seq<Node>, n: int)
    requires
        0 <= n <= nodes.len(),
    ensures
        count_empty_upto(nodes, n) <= n,
    decreases n,
{
    if n > 0 {
        lemma_count_empty_upto_le(nodes, n - 1);
    }
}

/// Filling one empty slot lowers the empty count of every prefix behind it
/// by one.
pub proof fn lemma_count_empty_update(pre: Seq<Node>, j: int, nn: Node, n: int)
    requires
        0 <= j < pre.len(),
        pre[j] is Empty,
        !(nn is Empty),
        0 <= n <= pre.len(),
    ensures
        count_empty_upto(pre.update(j, nn), n) == count_empty_upto(pre, n) - (if j < n {
            1int
        } else {
            0int
        }),
    decreases n,
{
    if n > 0 {
        lemma_count_empty_update(pre, j, nn, n - 1);
    }
}

/// A prefix without empty slots counts zero.
pub proof fn lemma_count_empty_when_full(nodes: Seq<Node>, n: int)
    requires
        0 <= n <= nodes.len(),
        forall|j: int| 0 <= j < n ==> !(#[trigger] nodes[j] is Empty),
    ensures
        count_empty_upto(nodes, n) == 0,
    decreases n,
{
    if n > 0 {
        lemma_count_empty_when_full(nodes, n - 1);
    }
}

/// The first empty index: everything before it is full, and it is an empty
/// slot unless it is the length.
pub proof fn lemma_first_empty_spec(nodes: Seq<Node>)
    ensures
        0 <= first_empty(nodes) <= nodes.len(),
        forall|j: int| 0 <= j < first_empty(nodes) ==> !(#[trigger] nodes[j] is Empty),
        first_empty(nodes) < nodes.len() ==> nodes[first_empty(nodes)] is Empty,
{
    lemma_first_empty_from_spec(nodes, 0);
}

proof fn lemma_first_empty_from_spec(nodes: Seq<Node>, i: int)
    requires
        0 <= i <= nodes.len(),
    ensures
        i <= first_empty_from(nodes, i) <= nodes.len(),
        forall|j: int| i <= j < first_empty_from(nodes, i) ==> !(#[trigger] nodes[j] is Empty),
        first_empty_from(nodes, i) < nodes.len() ==> nodes[first_empty_from(nodes, i)] is Empty,
    decreases nodes.len() - i,
{
    if i < nodes.len() && !(nodes[i] is Empty) {
        lemma_first_empty_from_spec(nodes, i + 1);
    }
}

/// A full heap (no first empty slot) counts zero empty slots.
pub proof fn lemma_full_counts_zero(nodes: Seq<Node>)
    requires
        first_empty(nodes) == nodes.len(),
    ensures
        count_empty(nodes) == 0,
{
    lemma_first_empty_spec(nodes);
    lemma_count_empty_when_full(nodes, nodes.len() as int);
}

/// When the slots before `i` are all full and slot `i` is empty (or `i` is
/// the length), `i` is the first empty index.
proof fn lemma_first_empty_at(nodes: Seq<Node>, i: int)
    requires
        0 <= i <= nodes.len(),
        forall|j: int| 0 <= j < i ==> !(#[trigger] nodes[j] is Empty),
        i < nodes.len() ==> nodes[i] is Empty,
    ensures
        first_empty(nodes) == i,
{
    lemma_first_empty_from_at(nodes, 0, i);
}

proof fn lemma_first_empty_from_at(nodes: Seq<Node>, k: int, i: int)
    requires
        0 <= k <= i <= nodes.len(),
        forall|j: int| k <= j < i ==> !(#[trigger] nodes[j] is Empty),
        i < nodes.len() ==> nodes[i] is Empty,
    ensures
        first_empty_from(nodes, k) == i,
    decreases i - k,
{
    if k < i {
        lemma_first_empty_from_at(nodes, k + 1, i);
    }
}

/// Filling an empty slot with a coherent object, stamped with the current
/// counter, keeps every slot coherent at the advanced counter.
proof fn lemma_put_preserves_wf(pre: Seq<Node>, post: Seq<Node>, time: usize, i: int, o: Object)
    requires
        nodes_wf(pre, time),
        time < usize::MAX,
        object_wf(pre, o, time),
        0 <= i < pre.len(),
        pre[i] is Empty,
        post == pre.update(i, Node::Occupied(o, time)),
    ensures
        nodes_wf(post, (time + 1) as usize),
{
    let time1 = (time + 1) as usize;
    assert forall|p: Gc| resolves(pre, p) implies resolves(post, p) && object_at(post, p)
        == object_at(pre, p) by {
        assert(p.index != i);
    }
    assert forall|j: int| 0 <= j < post.len() implies #[trigger] slot_wf(post, time1, j) by {
        assert(slot_wf(pre, time, j));
        if j == i {
            assert forall|k: int| 0 <= k < kids(o).len() implies resolves(
                post,
                #[trigger] kids(o)[k],
            ) && kids(o)[k].timestamp < time by {
                assert(resolves(pre, kids(o)[k]));
            }
            match o {
                Object::Pair(pv) => {
                    assert(resolves(pre, pv.snd));
                    assert(pv.snd.index != i);
                },
                _ => {},
            }
        } else {
            match pre[j] {
                Node::Empty => {},
                Node::Occupied(oj, t) => {
                    lemma_object_wf_preserved(pre, post, oj, t, i);
                },
                Node::Marked(oj, t) => {
                    lemma_object_wf_preserved(pre, post, oj, t, i);
                },
            }
        }
    }
}

/// An object stays coherent when an empty slot elsewhere is filled: its
/// sub-references resolve to untouched slots.
proof fn lemma_object_wf_preserved(pre: Seq<Node>, post: Seq<Node>, o: Object, stamp: usize, i: int)
    requires
        object_wf(pre, o, stamp),
        0 <= i < pre.len(),
        pre[i] is Empty,
        post.len() == pre.len(),
        forall|j: int| 0 <= j < pre.len() && j != i ==> post[j] == pre[j],
    ensures
        object_wf(post, o, stamp),
{
    assert forall|k: int| 0 <= k < kids(o).len() implies resolves(post, #[trigger] kids(o)[k])
        && kids(o)[k].timestamp < stamp by {
        assert(resolves(pre, kids(o)[k]));
        assert(kids(o)[k].index != i);
    }
    match o {
        Object::Pair(pv) => {
            assert(resolves(pre, pv.snd));
            assert(pv.snd.index != i);
        },
        _ => {},
    }
}

} // verus!

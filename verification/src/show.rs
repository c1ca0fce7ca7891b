//! The printer: renders a heap-resident value as text.  `Unit` prints as the
//! nil spelling `()`, booleans as `#t`/`#f`, symbols as their name, proper
//! lists as space-separated elements in parentheses, dotted pairs as
//! `(a * b)`, and procedures as an opaque placeholder.

use vstd::prelude::*;
use vstd::string::StringExecFns;

use crate::heap::{
    kids, list_flag, node_is_full, node_object, node_stamp, nodes_wf, object_at, object_wf,
    resolves, slot_wf, Gc, Node, Object,
};
use crate::v0::{guard, Error, V0};

verus! {

/// Every sub-reference of the object in full slot `i` resolves and was
/// allocated strictly earlier than the slot's own object.
pub open spec fn slot_ordered(nodes: Seq<Node>, i: int) -> bool {
    forall|k: int|
        0 <= k < kids(node_object(nodes[i])).len() ==> resolves(
            nodes,
            #[trigger] kids(node_object(nodes[i]))[k],
        ) && kids(node_object(nodes[i]))[k].timestamp < node_stamp(nodes[i])
}

/// The pointer graph is ordered by allocation stamps: following a
/// sub-reference strictly lowers the stamp, so every chain is finite.
pub open spec fn nodes_ordered(nodes: Seq<Node>) -> bool {
    forall|i: int|
        0 <= i < nodes.len() && node_is_full(nodes[i]) ==> #[trigger] slot_ordered(nodes, i)
}

/// The heap invariant orders the pointer graph.
pub proof fn lemma_wf_ordered(nodes: Seq<Node>, time: usize)
    requires
        nodes_wf(nodes, time),
    ensures
        nodes_ordered(nodes),
{
    assert forall|i: int|
        0 <= i < nodes.len() && node_is_full(nodes[i]) implies #[trigger] slot_ordered(
        nodes,
        i,
    ) by {
        assert(slot_wf(nodes, time, i));
    }
}

/// The text a value renders to.
pub open spec fn render(nodes: Seq<Node>, p: Gc) -> Seq<char>
    decreases p.timestamp, 1int,
        when nodes_ordered(nodes)
{
    if !resolves(nodes, p) {
        Seq::empty()
    } else {
        match object_at(nodes, p) {
            Object::Unit => seq!['(', ')'],
            Object::Bool(b) => if b {
                seq!['#', 't']
            } else {
                seq!['#', 'f']
            },
            Object::Symbol(s) => s@,
            Object::Pair(pv) => {
                proof {
                    assert(slot_ordered(nodes, p.index as int));
                    assert(kids(object_at(nodes, p))[0] == pv.fst);
                    assert(kids(object_at(nodes, p))[1] == pv.snd);
                }
                if pv.is_list {
                    seq!['('] + render_items(nodes, p) + seq![')']
                } else {
                    seq!['('] + render(nodes, pv.fst) + seq![' ', '*', ' '] + render(nodes, pv.snd)
                        + seq![')']
                }
            },
            Object::Proc(_) => seq!['<', 'p', 'r', 'o', 'c', 'e', 'd', 'u', 'r', 'e', '>'],
        }
    }
}

/// The space-separated rendering of the elements of a proper-list chain:
/// empty at the `Unit` terminator, and each element followed by a space
/// unless it is the last.
pub open spec fn render_items(nodes: Seq<Node>, p: Gc) -> Seq<char>
    decreases p.timestamp, 0int,
        when nodes_ordered(nodes)
{
    if resolves(nodes, p) && object_at(nodes, p) is Pair {
        let pv = object_at(nodes, p)->Pair_0;
        proof {
            assert(slot_ordered(nodes, p.index as int));
            assert(kids(object_at(nodes, p))[0] == pv.fst);
            assert(kids(object_at(nodes, p))[1] == pv.snd);
        }
        render(nodes, pv.fst) + (if resolves(nodes, pv.snd) && object_at(nodes, pv.snd) is Unit {
            Seq::<char>::empty()
        } else {
            seq![' ']
        }) + render_items(nodes, pv.snd)
    } else {
        Seq::empty()
    }
}

impl V0 {
    /// Renders a value into the output buffer.  Succeeds exactly when the
    /// value's pointer resolves, appending its rendering; a stale or dangling
    /// pointer fails with `Error::Pointer` and leaves the buffer untouched.
    pub fn show(&self, pointer: Gc, buf: &mut String) -> (r: Result<(), Error>)
        requires
            self.wf(),
        ensures
            match r {
                Ok(()) => resolves(self.heap.nodes@, pointer) && final(buf)@ == old(buf)@
                    + render(self.heap.nodes@, pointer),
                Err(e) => e is Pointer && !resolves(self.heap.nodes@, pointer) && final(buf)@
                    == old(buf)@,
            },
        decreases pointer.timestamp, 1int,
    {
        let ghost nodes = self.heap.nodes@;
        proof {
            lemma_wf_ordered(nodes, self.heap.time);
        }
        let obj = match self.heap.get(pointer) {
            Ok(o) => o,
            Err(e) => {
                return Err(e);
            },
        };
        proof {
            assert(slot_wf(nodes, self.heap.time, pointer.index as int));
            assert(object_wf(nodes, object_at(nodes, pointer), node_stamp(
                nodes[pointer.index as int],
            )));
        }
        match obj {
            Object::Unit => {
                buf.append("()");
                proof {
                    reveal_strlit("()");
                    assert(buf@ =~= old(buf)@ + render(nodes, pointer));
                }
            },
            Object::Bool(value) => {
                if *value {
                    buf.append("#t");
                    proof {
                        reveal_strlit("#t");
                        assert(buf@ =~= old(buf)@ + render(nodes, pointer));
                    }
                } else {
                    buf.append("#f");
                    proof {
                        reveal_strlit("#f");
                        assert(buf@ =~= old(buf)@ + render(nodes, pointer));
                    }
                }
            },
            Object::Symbol(value) => {
                buf.append(value.as_str());
                proof {
                    assert(buf@ =~= old(buf)@ + render(nodes, pointer));
                }
            },
            Object::Pair(value) => {
                let pv = *value;
                proof {
                    assert(kids(object_at(nodes, pointer))[0] == pv.fst);
                    assert(kids(object_at(nodes, pointer))[1] == pv.snd);
                    assert(resolves(nodes, pv.fst) && pv.fst.timestamp < pointer.timestamp);
                    assert(resolves(nodes, pv.snd) && pv.snd.timestamp < pointer.timestamp);
                }
                if !pv.is_list {
                    buf.append("(");
                    match self.show(pv.fst, buf) {
                        Ok(()) => {},
                        Err(e) => {
                            proof {
                                assert(false);
                            }
                            return Err(e);
                        },
                    }
                    buf.append(" * ");
                    match self.show(pv.snd, buf) {
                        Ok(()) => {},
                        Err(e) => {
                            proof {
                                assert(false);
                            }
                            return Err(e);
                        },
                    }
                    buf.append(")");
                    proof {
                        reveal_strlit("(");
                        reveal_strlit(" * ");
                        reveal_strlit(")");
                        assert(buf@ =~= old(buf)@ + render(nodes, pointer));
                    }
                } else {
                    buf.append("(");
                    match self.show_items(pointer, buf) {
                        Ok(()) => {},
                        Err(e) => {
                            proof {
                                assert(false);
                            }
                            return Err(e);
                        },
                    }
                    buf.append(")");
                    proof {
                        reveal_strlit("(");
                        reveal_strlit(")");
                        assert(buf@ =~= old(buf)@ + render(nodes, pointer));
                    }
                }
            },
            Object::Proc(_) => {
                buf.append("<procedure>");
                proof {
                    reveal_strlit("<procedure>");
                    assert(buf@ =~= old(buf)@ + render(nodes, pointer));
                }
            },
        }
        Ok(())
    }

    /// Renders the elements of a proper-list chain, space-separated.  The
    /// chain pointer must resolve to `Unit` or to a pair whose cached list
    /// flag is set; the heap invariant then guarantees the whole chain is
    /// intact, so rendering cannot fail.
    pub fn show_items(&self, xs: Gc, buf: &mut String) -> (r: Result<(), Error>)
        requires
            self.wf(),
            resolves(self.heap.nodes@, xs),
            list_flag(self.heap.nodes@, xs),
        ensures
            r is Ok,
            final(buf)@ == old(buf)@ + render_items(self.heap.nodes@, xs),
        decreases xs.timestamp, 0int,
    {
        let ghost nodes = self.heap.nodes@;
        proof {
            lemma_wf_ordered(nodes, self.heap.time);
        }
        let obj = match self.heap.get(xs) {
            Ok(o) => o,
            Err(e) => {
                proof {
                    assert(false);
                }
                return Err(e);
            },
        };
        proof {
            assert(slot_wf(nodes, self.heap.time, xs.index as int));
            assert(object_wf(nodes, object_at(nodes, xs), node_stamp(nodes[xs.index as int])));
        }
        match obj {
            Object::Pair(value) => {
                let pv = *value;
                proof {
                    assert(kids(object_at(nodes, xs))[0] == pv.fst);
                    assert(kids(object_at(nodes, xs))[1] == pv.snd);
                    assert(resolves(nodes, pv.fst) && pv.fst.timestamp < xs.timestamp);
                    assert(resolves(nodes, pv.snd) && pv.snd.timestamp < xs.timestamp);
                    // the cached flag propagates down the chain
                    assert(pv.is_list);
                    assert(pv.is_list == list_flag(nodes, pv.snd));
                }
                match self.show(pv.fst, buf) {
                    Ok(()) => {},
                    Err(e) => {
                        proof {
                            assert(false);
                        }
                        return Err(e);
                    },
                }
                let snd_obj = match self.heap.get(pv.snd) {
                    Ok(o) => o,
                    Err(e) => {
                        proof {
                            assert(false);
                        }
                        return Err(e);
                    },
                };
                if !snd_obj.is_unit() {
                    buf.append(" ");
                    proof {
                        reveal_strlit(" ");
                    }
                }
                match self.show_items(pv.snd, buf) {
                    Ok(()) => {},
                    Err(e) => {
                        proof {
                            assert(false);
                        }
                        return Err(e);
                    },
                }
                proof {
                    assert(buf@ =~= old(buf)@ + render_items(nodes, xs));
                }
            },
            _ => {
                // the chain has ended: the cached list flag guarantees the
                // terminator is the unit value
                let flag = obj.is_unit();
                match guard(flag) {
                    Ok(()) => {},
                    Err(e) => {
                        proof {
                            assert(false);
                        }
                        return Err(e);
                    },
                }
            },
        }
        Ok(())
    }
}

} // verus!

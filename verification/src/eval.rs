//! The evaluation protocol: `eval`, `exec`, `evlis` and `apply` over heap
//! values, with an explicit step budget.
//!
//! Chosen discipline, where the design leaves a choice: evaluation is
//! applicative — `eval` on an application form evaluates the head, then every
//! operand left-to-right through `evlis`, then applies; `exec` is the
//! operative entry point that hands the operand list to `apply` unevaluated.
//! An environment is a pair whose first field is the lexical chain and whose
//! second is the dynamic chain; each chain is a proper list of `(symbol .
//! value)` binding pairs, and a symbol resolves through the lexical chain
//! first.  An unbound symbol, a malformed environment, an argument list of
//! the wrong shape and application of a non-procedure all fail with
//! `Error::Type`; an exhausted step budget fails with `Error::Time`.  The
//! `Shift` primitive alone stays reserved with `Error::Stub`: capturing the
//! rest of the computation needs continuations reified as heap values, which
//! this revision does not build.

use vstd::prelude::*;

use crate::heap::{
    count_empty, kids, node_stamp, nodes_wf, object_at, object_wf, put_ok, resolves, slot_wf, Gc,
    Heap, NativeTag, Node, Object, Proc,
};
use crate::reader::lemma_alloc_step;
use crate::show::{lemma_wf_ordered, nodes_ordered, slot_ordered};
use crate::v0::{Error, V0};

verus! {

/// Heap growth: every pointer that resolved still resolves to the same
/// object, and no slot changed its mark state.  What every evaluation step
/// guarantees about the heap.
pub open spec fn heap_extends(pre: Seq<Node>, post: Seq<Node>) -> bool {
    &&& post.len() == pre.len()
    &&& forall|q: Gc| #[trigger] resolves(pre, q) ==> resolves(post, q) && object_at(post, q)
        == object_at(pre, q)
    &&& forall|i: int| 0 <= i < pre.len() ==> ((#[trigger] post[i] is Marked) == (pre[i] is Marked))
}

pub proof fn lemma_extends_trans(a: Seq<Node>, b: Seq<Node>, c: Seq<Node>)
    requires
        heap_extends(a, b),
        heap_extends(b, c),
    ensures
        heap_extends(a, c),
{
    assert forall|q: Gc| #[trigger] resolves(a, q) implies resolves(c, q) && object_at(c, q)
        == object_at(a, q) by {
        assert(resolves(b, q));
    }
    assert forall|i: int| 0 <= i < a.len() implies ((#[trigger] c[i] is Marked) == (a[i]
        is Marked)) by {
        assert((b[i] is Marked) == (a[i] is Marked));
    }
}

/// What one successful allocation through the facade gives an evaluation
/// step: heap growth, the new pointer, and an unchanged sum of stamp counter
/// and free slots.
proof fn lemma_put_step(pre: Heap, post: Heap, p: Gc, o: Object)
    requires
        pre.wf(),
        post.wf(),
        put_ok(pre, post, p, o),
    ensures
        heap_extends(pre.nodes@, post.nodes@),
        resolves(post.nodes@, p),
        object_at(post.nodes@, p) == o,
        post.nodes@.len() == pre.nodes@.len(),
        post.time + count_empty(post.nodes@) == pre.time + count_empty(pre.nodes@),
{
    lemma_alloc_step(pre, post, p, o);
}

/// Both fields of a resolving pair resolve, with strictly older stamps.
proof fn lemma_pair_kids(nodes: Seq<Node>, time: usize, p: Gc)
    requires
        nodes_wf(nodes, time),
        resolves(nodes, p),
        object_at(nodes, p) is Pair,
    ensures
        resolves(nodes, (object_at(nodes, p)->Pair_0).fst),
        resolves(nodes, (object_at(nodes, p)->Pair_0).snd),
        (object_at(nodes, p)->Pair_0).fst.timestamp < p.timestamp,
        (object_at(nodes, p)->Pair_0).snd.timestamp < p.timestamp,
{
    assert(slot_wf(nodes, time, p.index as int));
    let o = object_at(nodes, p);
    assert(object_wf(nodes, o, node_stamp(nodes[p.index as int])));
    assert(kids(o)[0] == (o->Pair_0).fst);
    assert(kids(o)[1] == (o->Pair_0).snd);
}

/// All four fields of a resolving closure resolve.
proof fn lemma_closure_kids(nodes: Seq<Node>, time: usize, p: Gc)
    requires
        nodes_wf(nodes, time),
        resolves(nodes, p),
        object_at(nodes, p) matches Object::Proc(pr) && pr is Closure,
    ensures
        resolves(nodes, ((object_at(nodes, p)->Proc_0)->Closure_0).pattern),
        resolves(nodes, ((object_at(nodes, p)->Proc_0)->Closure_0).body),
        resolves(nodes, ((object_at(nodes, p)->Proc_0)->Closure_0).lexical),
        resolves(nodes, ((object_at(nodes, p)->Proc_0)->Closure_0).dynamic),
{
    assert(slot_wf(nodes, time, p.index as int));
    let o = object_at(nodes, p);
    assert(object_wf(nodes, o, node_stamp(nodes[p.index as int])));
    let c = (o->Proc_0)->Closure_0;
    assert(kids(o)[0] == c.pattern);
    assert(kids(o)[1] == c.body);
    assert(kids(o)[2] == c.lexical);
    assert(kids(o)[3] == c.dynamic);
}

/// The outcome of a symbol search: a bound value, a completed but empty
/// search, or a malformed environment structure.
pub enum LookupR {
    Found(Gc),
    Absent,
    Malformed,
}

/// Searches one binding chain front-to-back: a proper list of `(symbol .
/// value)` pairs.  Anything of another shape, or a dangling pointer, is
/// malformed.
pub open spec fn alist_lookup(nodes: Seq<Node>, name: Seq<char>, al: Gc) -> LookupR
    decreases al.timestamp,
        when nodes_ordered(nodes)
{
    if !resolves(nodes, al) {
        LookupR::Malformed
    } else {
        match object_at(nodes, al) {
            Object::Unit => LookupR::Absent,
            Object::Pair(pv) => {
                if resolves(nodes, pv.fst) && object_at(nodes, pv.fst) is Pair {
                    let bv = object_at(nodes, pv.fst)->Pair_0;
                    if resolves(nodes, bv.fst) && object_at(nodes, bv.fst) is Symbol {
                        if (object_at(nodes, bv.fst)->Symbol_0)@ == name {
                            LookupR::Found(bv.snd)
                        } else {
                            proof {
                                assert(slot_ordered(nodes, al.index as int));
                                assert(kids(object_at(nodes, al))[1] == pv.snd);
                            }
                            alist_lookup(nodes, name, pv.snd)
                        }
                    } else {
                        LookupR::Malformed
                    }
                } else {
                    LookupR::Malformed
                }
            },
            _ => LookupR::Malformed,
        }
    }
}

/// Resolves a symbol in an environment: the lexical chain first, then the
/// dynamic chain.  The environment must be a pair of two binding chains.
pub open spec fn spec_lookup(nodes: Seq<Node>, name: Seq<char>, env: Gc) -> LookupR {
    if resolves(nodes, env) && object_at(nodes, env) is Pair {
        let ev = object_at(nodes, env)->Pair_0;
        match alist_lookup(nodes, name, ev.fst) {
            LookupR::Found(v) => LookupR::Found(v),
            LookupR::Absent => alist_lookup(nodes, name, ev.snd),
            LookupR::Malformed => LookupR::Malformed,
        }
    } else {
        LookupR::Malformed
    }
}

/// The single argument of a one-element argument list, if the list has that
/// exact shape.
pub open spec fn spec_arg1(nodes: Seq<Node>, args: Gc) -> Option<Gc> {
    if resolves(nodes, args) && object_at(nodes, args) is Pair {
        let av = object_at(nodes, args)->Pair_0;
        if resolves(nodes, av.snd) && object_at(nodes, av.snd) is Unit {
            Option::Some(av.fst)
        } else {
            Option::None
        }
    } else {
        Option::None
    }
}

/// The two arguments of a two-element argument list, if the list has that
/// exact shape.
pub open spec fn spec_arg2(nodes: Seq<Node>, args: Gc) -> Option<(Gc, Gc)> {
    if resolves(nodes, args) && object_at(nodes, args) is Pair {
        let av = object_at(nodes, args)->Pair_0;
        match spec_arg1(nodes, av.snd) {
            Option::Some(y) => Option::Some((av.fst, y)),
            Option::None => Option::None,
        }
    } else {
        Option::None
    }
}

/// The number of cons cells along a value's rest chain: the length of a
/// proper list.
pub open spec fn chain_len(nodes: Seq<Node>, p: Gc) -> nat
    decreases p.timestamp,
        when nodes_ordered(nodes)
{
    if resolves(nodes, p) && object_at(nodes, p) is Pair {
        let pv = object_at(nodes, p)->Pair_0;
        proof {
            assert(slot_ordered(nodes, p.index as int));
            assert(kids(object_at(nodes, p))[1] == pv.snd);
        }
        1 + chain_len(nodes, pv.snd)
    } else {
        0
    }
}

/// Chain lengths of existing values are stable under heap growth.
proof fn lemma_chain_len_extends(pre: Seq<Node>, post: Seq<Node>, time: usize, p: Gc)
    requires
        nodes_wf(pre, time),
        nodes_ordered(post),
        heap_extends(pre, post),
        resolves(pre, p),
    ensures
        chain_len(post, p) == chain_len(pre, p),
    decreases p.timestamp,
{
    lemma_wf_ordered(pre, time);
    assert(resolves(post, p) && object_at(post, p) == object_at(pre, p));
    if object_at(pre, p) is Pair {
        lemma_pair_kids(pre, time, p);
        let pv = object_at(pre, p)->Pair_0;
        lemma_chain_len_extends(pre, post, time, pv.snd);
    }
}

/// Searches one binding chain for a name.  `Ok(Some(v))` on the first
/// binding of that name, `Ok(None)` when the chain ends without one,
/// `Error::Type` on a chain of the wrong shape.
fn alist_search(heap: &Heap, name: &String, al: Gc) -> (r: Result<Option<Gc>, Error>)
    requires
        heap.wf(),
    ensures
        match alist_lookup(heap.nodes@, name@, al) {
            LookupR::Found(v) => r == Ok::<Option<Gc>, Error>(Option::Some(v)) && resolves(
                heap.nodes@,
                v,
            ),
            LookupR::Absent => r == Ok::<Option<Gc>, Error>(Option::None),
            LookupR::Malformed => r == Err::<Option<Gc>, Error>(Error::Type),
        },
    decreases al.timestamp,
{
    proof {
        lemma_wf_ordered(heap.nodes@, heap.time);
    }
    let obj = match heap.get(al) {
        Ok(o) => o,
        Err(_) => {
            return Err(Error::Type);
        },
    };
    match obj {
        Object::Unit => Ok(None),
        Object::Pair(pv) => {
            let pv = *pv;
            proof {
                lemma_pair_kids(heap.nodes@, heap.time, al);
            }
            let bobj = match heap.get(pv.fst) {
                Ok(o) => o,
                Err(_) => {
                    return Err(Error::Type);
                },
            };
            match bobj {
                Object::Pair(bv) => {
                    let bv = *bv;
                    let sobj = match heap.get(bv.fst) {
                        Ok(o) => o,
                        Err(_) => {
                            return Err(Error::Type);
                        },
                    };
                    match sobj {
                        Object::Symbol(s) => {
                            if *s == *name {
                                proof {
                                    lemma_pair_kids(heap.nodes@, heap.time, pv.fst);
                                }
                                Ok(Some(bv.snd))
                            } else {
                                alist_search(heap, name, pv.snd)
                            }
                        },
                        _ => Err(Error::Type),
                    }
                },
                _ => Err(Error::Type),
            }
        },
        _ => Err(Error::Type),
    }
}

/// Resolves a symbol through an environment: lexical chain, then dynamic
/// chain.  An unbound symbol or a malformed environment is `Error::Type`.
fn lookup(heap: &Heap, name: &String, env: Gc) -> (r: Result<Gc, Error>)
    requires
        heap.wf(),
    ensures
        match spec_lookup(heap.nodes@, name@, env) {
            LookupR::Found(v) => r == Ok::<Gc, Error>(v) && resolves(heap.nodes@, v),
            _ => r == Err::<Gc, Error>(Error::Type),
        },
{
    let obj = match heap.get(env) {
        Ok(o) => o,
        Err(_) => {
            return Err(Error::Type);
        },
    };
    match obj {
        Object::Pair(ev) => {
            let ev = *ev;
            match alist_search(heap, name, ev.fst) {
                Ok(Some(v)) => Ok(v),
                Ok(None) => {
                    match alist_search(heap, name, ev.snd) {
                        Ok(Some(v)) => Ok(v),
                        Ok(None) => Err(Error::Type),
                        Err(e) => Err(e),
                    }
                },
                Err(e) => Err(e),
            }
        },
        _ => Err(Error::Type),
    }
}

/// Evaluates a value in an environment, spending one step of the budget per
/// evaluation-protocol call.  The empty list, booleans and procedure values
/// evaluate to themselves; a symbol resolves through the environment; a pair
/// is an application: its head is evaluated, its operands are evaluated
/// left-to-right, and the procedure is applied.
pub fn eval(value: Gc, env: Gc, lisp: &mut V0, fuel: usize) -> (r: Result<Gc, Error>)
    requires
        old(lisp).wf(),
        old(lisp).heap.time + count_empty(old(lisp).heap.nodes@) < usize::MAX,
    ensures
        final(lisp).wf(),
        final(lisp).heap.nodes@.len() == old(lisp).heap.nodes@.len(),
        heap_extends(old(lisp).heap.nodes@, final(lisp).heap.nodes@),
        final(lisp).heap.time + count_empty(final(lisp).heap.nodes@) == old(lisp).heap.time
            + count_empty(old(lisp).heap.nodes@),
        r matches Ok(v) ==> resolves(final(lisp).heap.nodes@, v),
        fuel == 0 ==> r == Err::<Gc, Error>(Error::Time) && final(lisp).heap == old(lisp).heap,
        fuel > 0 && !resolves(old(lisp).heap.nodes@, value) ==> r == Err::<Gc, Error>(
            Error::Pointer,
        ) && final(lisp).heap == old(lisp).heap,
        fuel > 0 && resolves(old(lisp).heap.nodes@, value) ==> match object_at(
            old(lisp).heap.nodes@,
            value,
        ) {
            Object::Unit => r == Ok::<Gc, Error>(value) && final(lisp).heap == old(lisp).heap,
            Object::Bool(_) => r == Ok::<Gc, Error>(value) && final(lisp).heap == old(lisp).heap,
            Object::Proc(_) => r == Ok::<Gc, Error>(value) && final(lisp).heap == old(lisp).heap,
            Object::Symbol(s) => final(lisp).heap == old(lisp).heap && (match spec_lookup(
                old(lisp).heap.nodes@,
                s@,
                env,
            ) {
                LookupR::Found(v) => r == Ok::<Gc, Error>(v),
                _ => r == Err::<Gc, Error>(Error::Type),
            }),
            Object::Pair(_) => true,
        },
    decreases fuel,
{
    if fuel == 0 {
        return Err(Error::Time);
    }
    let obj = match lisp.heap.get(value) {
        Ok(o) => o,
        Err(e) => {
            return Err(e);
        },
    };
    match obj {
        Object::Unit => Ok(value),
        Object::Bool(_) => Ok(value),
        Object::Proc(_) => Ok(value),
        Object::Symbol(name) => lookup(&lisp.heap, name, env),
        Object::Pair(pv) => {
            let pv = *pv;
            proof {
                lemma_pair_kids(lisp.heap.nodes@, lisp.heap.time, value);
            }
            let ghost h0 = lisp.heap;
            let head = match eval(pv.fst, env, lisp, fuel - 1) {
                Ok(v) => v,
                Err(e) => {
                    return Err(e);
                },
            };
            let ghost h1 = lisp.heap;
            let args = match evlis(pv.snd, env, lisp, fuel - 1) {
                Ok(v) => v,
                Err(e) => {
                    proof {
                        lemma_extends_trans(h0.nodes@, h1.nodes@, lisp.heap.nodes@);
                    }
                    return Err(e);
                },
            };
            let ghost h2 = lisp.heap;
            proof {
                lemma_extends_trans(h0.nodes@, h1.nodes@, h2.nodes@);
            }
            let r = apply(head, args, env, lisp, fuel - 1);
            proof {
                lemma_extends_trans(h0.nodes@, h2.nodes@, lisp.heap.nodes@);
            }
            r
        },
    }
}

/// The operative entry point: evaluates only the head of an application
/// form and hands the operand list to `apply` unevaluated.
pub fn exec(value: Gc, env: Gc, lisp: &mut V0, fuel: usize) -> (r: Result<Gc, Error>)
    requires
        old(lisp).wf(),
        old(lisp).heap.time + count_empty(old(lisp).heap.nodes@) < usize::MAX,
    ensures
        final(lisp).wf(),
        final(lisp).heap.nodes@.len() == old(lisp).heap.nodes@.len(),
        heap_extends(old(lisp).heap.nodes@, final(lisp).heap.nodes@),
        final(lisp).heap.time + count_empty(final(lisp).heap.nodes@) == old(lisp).heap.time
            + count_empty(old(lisp).heap.nodes@),
        r matches Ok(v) ==> resolves(final(lisp).heap.nodes@, v),
        fuel == 0 ==> r == Err::<Gc, Error>(Error::Time) && final(lisp).heap == old(lisp).heap,
        fuel > 0 && !resolves(old(lisp).heap.nodes@, value) ==> r == Err::<Gc, Error>(
            Error::Pointer,
        ) && final(lisp).heap == old(lisp).heap,
        fuel > 0 && resolves(old(lisp).heap.nodes@, value) && !(object_at(
            old(lisp).heap.nodes@,
            value,
        ) is Pair) ==> r == Err::<Gc, Error>(Error::Type) && final(lisp).heap == old(lisp).heap,
    decreases fuel,
{
    if fuel == 0 {
        return Err(Error::Time);
    }
    let obj = match lisp.heap.get(value) {
        Ok(o) => o,
        Err(e) => {
            return Err(e);
        },
    };
    match obj {
        Object::Pair(pv) => {
            let pv = *pv;
            proof {
                lemma_pair_kids(lisp.heap.nodes@, lisp.heap.time, value);
            }
            let ghost h0 = lisp.heap;
            let head = match eval(pv.fst, env, lisp, fuel - 1) {
                Ok(v) => v,
                Err(e) => {
                    return Err(e);
                },
            };
            let ghost h1 = lisp.heap;
            let r = apply(head, pv.snd, env, lisp, fuel - 1);
            proof {
                lemma_extends_trans(h0.nodes@, h1.nodes@, lisp.heap.nodes@);
            }
            r
        },
        _ => Err(Error::Type),
    }
}

/// Evaluates each element of a proper list left-to-right and returns the
/// list of the results, in order: the result is again a proper list of the
/// same length.  A non-proper-list argument form is `Error::Type`.
pub fn evlis(value: Gc, env: Gc, lisp: &mut V0, fuel: usize) -> (r: Result<Gc, Error>)
    requires
        old(lisp).wf(),
        old(lisp).heap.time + count_empty(old(lisp).heap.nodes@) < usize::MAX,
    ensures
        final(lisp).wf(),
        final(lisp).heap.nodes@.len() == old(lisp).heap.nodes@.len(),
        heap_extends(old(lisp).heap.nodes@, final(lisp).heap.nodes@),
        final(lisp).heap.time + count_empty(final(lisp).heap.nodes@) == old(lisp).heap.time
            + count_empty(old(lisp).heap.nodes@),
        r matches Ok(v) ==> resolves(final(lisp).heap.nodes@, v) && crate::heap::list_flag(
            final(lisp).heap.nodes@,
            v,
        ) && chain_len(final(lisp).heap.nodes@, v) == chain_len(old(lisp).heap.nodes@, value),
        fuel == 0 ==> r == Err::<Gc, Error>(Error::Time) && final(lisp).heap == old(lisp).heap,
        fuel > 0 && !resolves(old(lisp).heap.nodes@, value) ==> r == Err::<Gc, Error>(
            Error::Pointer,
        ) && final(lisp).heap == old(lisp).heap,
        fuel > 0 && resolves(old(lisp).heap.nodes@, value) && object_at(
            old(lisp).heap.nodes@,
            value,
        ) is Unit ==> r == Ok::<Gc, Error>(value) && final(lisp).heap == old(lisp).heap,
        fuel > 0 && resolves(old(lisp).heap.nodes@, value) && !(object_at(
            old(lisp).heap.nodes@,
            value,
        ) is Unit) && !(object_at(old(lisp).heap.nodes@, value) is Pair) ==> r == Err::<Gc, Error>(
            Error::Type,
        ) && final(lisp).heap == old(lisp).heap,
    decreases fuel,
{
    if fuel == 0 {
        return Err(Error::Time);
    }
    proof {
        lemma_wf_ordered(lisp.heap.nodes@, lisp.heap.time);
    }
    let obj = match lisp.heap.get(value) {
        Ok(o) => o,
        Err(e) => {
            return Err(e);
        },
    };
    match obj {
        Object::Unit => Ok(value),
        Object::Pair(pv) => {
            let pv = *pv;
            proof {
                lemma_pair_kids(lisp.heap.nodes@, lisp.heap.time, value);
            }
            let ghost h0 = lisp.heap;
            let va = match eval(pv.fst, env, lisp, fuel - 1) {
                Ok(v) => v,
                Err(e) => {
                    return Err(e);
                },
            };
            let ghost h1 = lisp.heap;
            let vd = match evlis(pv.snd, env, lisp, fuel - 1) {
                Ok(v) => v,
                Err(e) => {
                    proof {
                        lemma_extends_trans(h0.nodes@, h1.nodes@, lisp.heap.nodes@);
                    }
                    return Err(e);
                },
            };
            let ghost h2 = lisp.heap;
            proof {
                lemma_extends_trans(h0.nodes@, h1.nodes@, h2.nodes@);
                assert(resolves(h2.nodes@, va)) by {
                    assert(resolves(h1.nodes@, va));
                }
                lemma_wf_ordered(h2.nodes@, h2.time);
            }
            let cell = match lisp.pair(va, vd) {
                Ok(v) => v,
                Err(e) => {
                    proof {
                        lemma_extends_trans(h0.nodes@, h2.nodes@, lisp.heap.nodes@);
                    }
                    return Err(e);
                },
            };
            proof {
                let stored = Object::Pair(
                    crate::heap::Pair {
                        fst: va,
                        snd: vd,
                        is_list: crate::heap::list_flag(h2.nodes@, vd),
                    },
                );
                lemma_put_step(h2, lisp.heap, cell, stored);
                lemma_extends_trans(h0.nodes@, h2.nodes@, lisp.heap.nodes@);
                lemma_wf_ordered(lisp.heap.nodes@, lisp.heap.time);
                // the new cell caches a true list flag and extends the chain
                // by one
                assert(crate::heap::list_flag(lisp.heap.nodes@, cell));
                assert(chain_len(h1.nodes@, pv.snd) == chain_len(h0.nodes@, pv.snd)) by {
                    lemma_wf_ordered(h1.nodes@, h1.time);
                    lemma_chain_len_extends(h0.nodes@, h1.nodes@, h0.time, pv.snd);
                }
                assert(chain_len(lisp.heap.nodes@, vd) == chain_len(h2.nodes@, vd)) by {
                    lemma_chain_len_extends(h2.nodes@, lisp.heap.nodes@, h2.time, vd);
                }
                assert(chain_len(lisp.heap.nodes@, cell) == 1 + chain_len(lisp.heap.nodes@, vd));
                assert(chain_len(h0.nodes@, value) == 1 + chain_len(h0.nodes@, pv.snd));
            }
            Ok(cell)
        },
        _ => Err(Error::Type),
    }
}

/// Binds a parameter pattern against an argument list, consing the new
/// bindings onto the chain `tail`: a symbol pattern binds the whole argument
/// list, a proper list of symbols binds element-wise, and the empty pattern
/// demands the empty argument list.  Shape or arity mismatches are
/// `Error::Type`.
fn bind(pattern: Gc, args: Gc, tail: Gc, lisp: &mut V0, fuel: usize) -> (r: Result<Gc, Error>)
    requires
        old(lisp).wf(),
        old(lisp).heap.time + count_empty(old(lisp).heap.nodes@) < usize::MAX,
        resolves(old(lisp).heap.nodes@, tail),
    ensures
        final(lisp).wf(),
        final(lisp).heap.nodes@.len() == old(lisp).heap.nodes@.len(),
        heap_extends(old(lisp).heap.nodes@, final(lisp).heap.nodes@),
        final(lisp).heap.time + count_empty(final(lisp).heap.nodes@) == old(lisp).heap.time
            + count_empty(old(lisp).heap.nodes@),
        r matches Ok(v) ==> resolves(final(lisp).heap.nodes@, v),
    decreases fuel,
{
    if fuel == 0 {
        return Err(Error::Time);
    }
    let obj = match lisp.heap.get(pattern) {
        Ok(o) => o,
        Err(e) => {
            return Err(e);
        },
    };
    match obj {
        Object::Symbol(_) => {
            let ghost h0 = lisp.heap;
            let binding = match lisp.pair(pattern, args) {
                Ok(v) => v,
                Err(e) => {
                    return Err(e);
                },
            };
            proof {
                lemma_put_step(
                    h0,
                    lisp.heap,
                    binding,
                    Object::Pair(
                        crate::heap::Pair {
                            fst: pattern,
                            snd: args,
                            is_list: crate::heap::list_flag(h0.nodes@, args),
                        },
                    ),
                );
            }
            let ghost h1 = lisp.heap;
            let r = lisp.pair(binding, tail);
            proof {
                match r {
                    Ok(v) => {
                        lemma_put_step(
                            h1,
                            lisp.heap,
                            v,
                            Object::Pair(
                                crate::heap::Pair {
                                    fst: binding,
                                    snd: tail,
                                    is_list: crate::heap::list_flag(h1.nodes@, tail),
                                },
                            ),
                        );
                        lemma_extends_trans(h0.nodes@, h1.nodes@, lisp.heap.nodes@);
                    },
                    Err(_) => {
                        lemma_extends_trans(h0.nodes@, h1.nodes@, lisp.heap.nodes@);
                    },
                }
            }
            r
        },
        Object::Unit => {
            let aobj = match lisp.heap.get(args) {
                Ok(o) => o,
                Err(e) => {
                    return Err(e);
                },
            };
            match aobj {
                Object::Unit => Ok(tail),
                _ => Err(Error::Type),
            }
        },
        Object::Pair(ppv) => {
            let ppv = *ppv;
            let aobj = match lisp.heap.get(args) {
                Ok(o) => o,
                Err(e) => {
                    return Err(e);
                },
            };
            let apv = match aobj {
                Object::Pair(apv) => *apv,
                _ => {
                    return Err(Error::Type);
                },
            };
            // the parameter position must hold a symbol
            let pobj = match lisp.heap.get(ppv.fst) {
                Ok(o) => o,
                Err(e) => {
                    return Err(e);
                },
            };
            match pobj {
                Object::Symbol(_) => {},
                _ => {
                    return Err(Error::Type);
                },
            }
            let ghost h0 = lisp.heap;
            let binding = match lisp.pair(ppv.fst, apv.fst) {
                Ok(v) => v,
                Err(e) => {
                    return Err(e);
                },
            };
            proof {
                lemma_put_step(
                    h0,
                    lisp.heap,
                    binding,
                    Object::Pair(
                        crate::heap::Pair {
                            fst: ppv.fst,
                            snd: apv.fst,
                            is_list: crate::heap::list_flag(h0.nodes@, apv.fst),
                        },
                    ),
                );
            }
            let ghost h1 = lisp.heap;
            proof {
                assert(resolves(h1.nodes@, tail));
            }
            let rest = match bind(ppv.snd, apv.snd, tail, lisp, fuel - 1) {
                Ok(v) => v,
                Err(e) => {
                    proof {
                        lemma_extends_trans(h0.nodes@, h1.nodes@, lisp.heap.nodes@);
                    }
                    return Err(e);
                },
            };
            let ghost h2 = lisp.heap;
            proof {
                lemma_extends_trans(h0.nodes@, h1.nodes@, h2.nodes@);
                assert(resolves(h2.nodes@, binding)) by {
                    assert(resolves(h1.nodes@, binding));
                }
            }
            let r = lisp.pair(binding, rest);
            proof {
                match r {
                    Ok(v) => {
                        lemma_put_step(
                            h2,
                            lisp.heap,
                            v,
                            Object::Pair(
                                crate::heap::Pair {
                                    fst: binding,
                                    snd: rest,
                                    is_list: crate::heap::list_flag(h2.nodes@, rest),
                                },
                            ),
                        );
                        lemma_extends_trans(h0.nodes@, h2.nodes@, lisp.heap.nodes@);
                    },
                    Err(_) => {
                        lemma_extends_trans(h0.nodes@, h2.nodes@, lisp.heap.nodes@);
                    },
                }
            }
            r
        },
        _ => Err(Error::Type),
    }
}

/// Applies a procedure value to an argument list.  A built-in runs its fixed
/// behaviour; a re-apply indirection re-enters `apply` on its wrapped value;
/// a closure binds its pattern against the arguments in a new lexical frame
/// chained onto its captured environments and evaluates its body there.
/// Applying a non-procedure is `Error::Type`; the `Shift` primitive alone is
/// reserved and fails with `Error::Stub`.
pub fn apply(proc_value: Gc, value: Gc, env: Gc, lisp: &mut V0, fuel: usize) -> (r: Result<
    Gc,
    Error,
>)
    requires
        old(lisp).wf(),
        old(lisp).heap.time + count_empty(old(lisp).heap.nodes@) < usize::MAX,
    ensures
        final(lisp).wf(),
        final(lisp).heap.nodes@.len() == old(lisp).heap.nodes@.len(),
        heap_extends(old(lisp).heap.nodes@, final(lisp).heap.nodes@),
        final(lisp).heap.time + count_empty(final(lisp).heap.nodes@) == old(lisp).heap.time
            + count_empty(old(lisp).heap.nodes@),
        r matches Ok(v) ==> resolves(final(lisp).heap.nodes@, v),
        fuel == 0 ==> r == Err::<Gc, Error>(Error::Time) && final(lisp).heap == old(lisp).heap,
        fuel > 0 && !resolves(old(lisp).heap.nodes@, proc_value) ==> r == Err::<Gc, Error>(
            Error::Pointer,
        ) && final(lisp).heap == old(lisp).heap,
        fuel > 0 && resolves(old(lisp).heap.nodes@, proc_value) && !(object_at(
            old(lisp).heap.nodes@,
            proc_value,
        ) is Proc) ==> r == Err::<Gc, Error>(Error::Type) && final(lisp).heap == old(lisp).heap,
        fuel > 0 && object_at(old(lisp).heap.nodes@, proc_value) == Object::Proc(
            Proc::Native(NativeTag::Shift),
        ) && resolves(old(lisp).heap.nodes@, proc_value) ==> r == Err::<Gc, Error>(Error::Stub)
            && final(lisp).heap == old(lisp).heap,
        fuel > 0 && object_at(old(lisp).heap.nodes@, proc_value) == Object::Proc(
            Proc::Native(NativeTag::Fst),
        ) && resolves(old(lisp).heap.nodes@, proc_value) ==> final(lisp).heap == old(lisp).heap
            && (match spec_arg1(old(lisp).heap.nodes@, value) {
            Option::Some(x) => {
                if !resolves(old(lisp).heap.nodes@, x) {
                    r == Err::<Gc, Error>(Error::Pointer)
                } else if object_at(old(lisp).heap.nodes@, x) is Pair {
                    r == Ok::<Gc, Error>((object_at(old(lisp).heap.nodes@, x)->Pair_0).fst)
                } else {
                    r == Err::<Gc, Error>(Error::Type)
                }
            },
            Option::None => r == Err::<Gc, Error>(Error::Type),
        }),
        fuel > 0 && object_at(old(lisp).heap.nodes@, proc_value) == Object::Proc(
            Proc::Native(NativeTag::Snd),
        ) && resolves(old(lisp).heap.nodes@, proc_value) ==> final(lisp).heap == old(lisp).heap
            && (match spec_arg1(old(lisp).heap.nodes@, value) {
            Option::Some(x) => {
                if !resolves(old(lisp).heap.nodes@, x) {
                    r == Err::<Gc, Error>(Error::Pointer)
                } else if object_at(old(lisp).heap.nodes@, x) is Pair {
                    r == Ok::<Gc, Error>((object_at(old(lisp).heap.nodes@, x)->Pair_0).snd)
                } else {
                    r == Err::<Gc, Error>(Error::Type)
                }
            },
            Option::None => r == Err::<Gc, Error>(Error::Type),
        }),
        fuel > 0 && object_at(old(lisp).heap.nodes@, proc_value) == Object::Proc(
            Proc::Native(NativeTag::Not),
        ) && resolves(old(lisp).heap.nodes@, proc_value) ==> match spec_arg1(
            old(lisp).heap.nodes@,
            value,
        ) {
            Option::Some(x) => {
                if resolves(old(lisp).heap.nodes@, x) && object_at(old(lisp).heap.nodes@, x)
                    is Bool {
                    r matches Ok(v) ==> object_at(final(lisp).heap.nodes@, v) == Object::Bool(
                        !(object_at(old(lisp).heap.nodes@, x)->Bool_0),
                    )
                } else {
                    true
                }
            },
            Option::None => r == Err::<Gc, Error>(Error::Type) && final(lisp).heap == old(
                lisp,
            ).heap,
        },
    decreases fuel,
{
    if fuel == 0 {
        return Err(Error::Time);
    }
    let obj = match lisp.heap.get(proc_value) {
        Ok(o) => o,
        Err(e) => {
            return Err(e);
        },
    };
    let pr = match obj {
        Object::Proc(pr) => *pr,
        _ => {
            return Err(Error::Type);
        },
    };
    match pr {
        Proc::Native(tag) => {
            match tag {
                NativeTag::Pair => {
                    let (x, y) = match arg2(&lisp.heap, value) {
                        Ok(xy) => xy,
                        Err(e) => {
                            return Err(e);
                        },
                    };
                    let ghost h0 = lisp.heap;
                    let r = lisp.pair(x, y);
                    proof {
                        match r {
                            Ok(v) => {
                                lemma_put_step(
                                    h0,
                                    lisp.heap,
                                    v,
                                    Object::Pair(
                                        crate::heap::Pair {
                                            fst: x,
                                            snd: y,
                                            is_list: crate::heap::list_flag(h0.nodes@, y),
                                        },
                                    ),
                                );
                            },
                            Err(_) => {},
                        }
                    }
                    r
                },
                NativeTag::Fst => {
                    let x = match arg1(&lisp.heap, value) {
                        Ok(x) => x,
                        Err(e) => {
                            return Err(e);
                        },
                    };
                    let xobj = match lisp.heap.get(x) {
                        Ok(o) => o,
                        Err(e) => {
                            return Err(e);
                        },
                    };
                    match xobj {
                        Object::Pair(xv) => {
                            proof {
                                lemma_pair_kids(lisp.heap.nodes@, lisp.heap.time, x);
                            }
                            Ok(xv.fst)
                        },
                        _ => Err(Error::Type),
                    }
                },
                NativeTag::Snd => {
                    let x = match arg1(&lisp.heap, value) {
                        Ok(x) => x,
                        Err(e) => {
                            return Err(e);
                        },
                    };
                    let xobj = match lisp.heap.get(x) {
                        Ok(o) => o,
                        Err(e) => {
                            return Err(e);
                        },
                    };
                    match xobj {
                        Object::Pair(xv) => {
                            proof {
                                lemma_pair_kids(lisp.heap.nodes@, lisp.heap.time, x);
                            }
                            Ok(xv.snd)
                        },
                        _ => Err(Error::Type),
                    }
                },
                NativeTag::Eval => {
                    let (x, e2) = match arg2(&lisp.heap, value) {
                        Ok(xy) => xy,
                        Err(e) => {
                            return Err(e);
                        },
                    };
                    eval(x, e2, lisp, fuel - 1)
                },
                NativeTag::Init => {
                    // a fresh empty environment: an empty lexical chain and
                    // an empty dynamic chain
                    let aobj = match lisp.heap.get(value) {
                        Ok(o) => o,
                        Err(e) => {
                            return Err(e);
                        },
                    };
                    match aobj {
                        Object::Unit => {},
                        _ => {
                            return Err(Error::Type);
                        },
                    }
                    let ghost h0 = lisp.heap;
                    let u = match lisp.unit() {
                        Ok(v) => v,
                        Err(e) => {
                            return Err(e);
                        },
                    };
                    proof {
                        lemma_put_step(h0, lisp.heap, u, Object::Unit);
                    }
                    let ghost h1 = lisp.heap;
                    let r = lisp.pair(u, u);
                    proof {
                        match r {
                            Ok(v) => {
                                lemma_put_step(
                                    h1,
                                    lisp.heap,
                                    v,
                                    Object::Pair(
                                        crate::heap::Pair {
                                            fst: u,
                                            snd: u,
                                            is_list: crate::heap::list_flag(h1.nodes@, u),
                                        },
                                    ),
                                );
                                lemma_extends_trans(h0.nodes@, h1.nodes@, lisp.heap.nodes@);
                            },
                            Err(_) => {
                                lemma_extends_trans(h0.nodes@, h1.nodes@, lisp.heap.nodes@);
                            },
                        }
                    }
                    r
                },
                NativeTag::Shift => {
                    // reserved: capturing the rest of the computation needs
                    // reified continuation values
                    Err(Error::Stub)
                },
                NativeTag::Reset => {
                    // run the delimited thunk: apply the single argument to
                    // the empty argument list
                    let f = match arg1(&lisp.heap, value) {
                        Ok(x) => x,
                        Err(e) => {
                            return Err(e);
                        },
                    };
                    let ghost h0 = lisp.heap;
                    let u = match lisp.unit() {
                        Ok(v) => v,
                        Err(e) => {
                            return Err(e);
                        },
                    };
                    proof {
                        lemma_put_step(h0, lisp.heap, u, Object::Unit);
                    }
                    let ghost h1 = lisp.heap;
                    let r = apply(f, u, env, lisp, fuel - 1);
                    proof {
                        lemma_extends_trans(h0.nodes@, h1.nodes@, lisp.heap.nodes@);
                    }
                    r
                },
                NativeTag::And => {
                    let (x, y) = match arg2(&lisp.heap, value) {
                        Ok(xy) => xy,
                        Err(e) => {
                            return Err(e);
                        },
                    };
                    let a = match bool_of(&lisp.heap, x) {
                        Ok(b) => b,
                        Err(e) => {
                            return Err(e);
                        },
                    };
                    let b = match bool_of(&lisp.heap, y) {
                        Ok(b) => b,
                        Err(e) => {
                            return Err(e);
                        },
                    };
                    alloc_bool(lisp, a && b)
                },
                NativeTag::Or => {
                    let (x, y) = match arg2(&lisp.heap, value) {
                        Ok(xy) => xy,
                        Err(e) => {
                            return Err(e);
                        },
                    };
                    let a = match bool_of(&lisp.heap, x) {
                        Ok(b) => b,
                        Err(e) => {
                            return Err(e);
                        },
                    };
                    let b = match bool_of(&lisp.heap, y) {
                        Ok(b) => b,
                        Err(e) => {
                            return Err(e);
                        },
                    };
                    alloc_bool(lisp, a || b)
                },
                NativeTag::Not => {
                    let x = match arg1(&lisp.heap, value) {
                        Ok(x) => x,
                        Err(e) => {
                            return Err(e);
                        },
                    };
                    let a = match bool_of(&lisp.heap, x) {
                        Ok(b) => b,
                        Err(e) => {
                            return Err(e);
                        },
                    };
                    alloc_bool(lisp, !a)
                },
            }
        },
        Proc::Reapply(inner) => apply(inner, value, env, lisp, fuel - 1),
        Proc::Closure(c) => {
            proof {
                lemma_closure_kids(lisp.heap.nodes@, lisp.heap.time, proc_value);
            }
            let ghost h0 = lisp.heap;
            let lex = match bind(c.pattern, value, c.lexical, lisp, fuel - 1) {
                Ok(v) => v,
                Err(e) => {
                    return Err(e);
                },
            };
            let ghost h1 = lisp.heap;
            let env2 = match lisp.pair(lex, c.dynamic) {
                Ok(v) => v,
                Err(e) => {
                    proof {
                        lemma_extends_trans(h0.nodes@, h1.nodes@, lisp.heap.nodes@);
                    }
                    return Err(e);
                },
            };
            proof {
                lemma_put_step(
                    h1,
                    lisp.heap,
                    env2,
                    Object::Pair(
                        crate::heap::Pair {
                            fst: lex,
                            snd: c.dynamic,
                            is_list: crate::heap::list_flag(h1.nodes@, c.dynamic),
                        },
                    ),
                );
                lemma_extends_trans(h0.nodes@, h1.nodes@, lisp.heap.nodes@);
            }
            let ghost h2 = lisp.heap;
            let r = eval(c.body, env2, lisp, fuel - 1);
            proof {
                lemma_extends_trans(h0.nodes@, h2.nodes@, lisp.heap.nodes@);
            }
            r
        },
    }
}

/// Extracts the single argument of a one-element argument list, or
/// `Error::Type` on any other shape.
fn arg1(heap: &Heap, args: Gc) -> (r: Result<Gc, Error>)
    requires
        heap.wf(),
    ensures
        match spec_arg1(heap.nodes@, args) {
            Option::Some(x) => r == Ok::<Gc, Error>(x),
            Option::None => r == Err::<Gc, Error>(Error::Type),
        },
{
    let obj = match heap.get(args) {
        Ok(o) => o,
        Err(_) => {
            return Err(Error::Type);
        },
    };
    match obj {
        Object::Pair(av) => {
            let av = *av;
            let tail = match heap.get(av.snd) {
                Ok(o) => o,
                Err(_) => {
                    return Err(Error::Type);
                },
            };
            match tail {
                Object::Unit => Ok(av.fst),
                _ => Err(Error::Type),
            }
        },
        _ => Err(Error::Type),
    }
}

/// Extracts the two arguments of a two-element argument list, or
/// `Error::Type` on any other shape.
fn arg2(heap: &Heap, args: Gc) -> (r: Result<(Gc, Gc), Error>)
    requires
        heap.wf(),
    ensures
        match spec_arg2(heap.nodes@, args) {
            Option::Some(xy) => r == Ok::<(Gc, Gc), Error>(xy),
            Option::None => r == Err::<(Gc, Gc), Error>(Error::Type),
        },
{
    let obj = match heap.get(args) {
        Ok(o) => o,
        Err(_) => {
            return Err(Error::Type);
        },
    };
    match obj {
        Object::Pair(av) => {
            let av = *av;
            match arg1(heap, av.snd) {
                Ok(y) => Ok((av.fst, y)),
                Err(e) => Err(e),
            }
        },
        _ => Err(Error::Type),
    }
}

/// Reads a boolean argument, or `Error::Type` on a value of another shape.
fn bool_of(heap: &Heap, x: Gc) -> (r: Result<bool, Error>)
    requires
        heap.wf(),
    ensures
        !resolves(heap.nodes@, x) ==> r == Err::<bool, Error>(Error::Pointer),
        resolves(heap.nodes@, x) ==> match object_at(heap.nodes@, x) {
            Object::Bool(b) => r == Ok::<bool, Error>(b),
            _ => r == Err::<bool, Error>(Error::Type),
        },
{
    let obj = match heap.get(x) {
        Ok(o) => o,
        Err(e) => {
            return Err(e);
        },
    };
    match obj {
        Object::Bool(b) => Ok(*b),
        _ => Err(Error::Type),
    }
}

/// Allocates a boolean literal.
fn alloc_bool(lisp: &mut V0, b: bool) -> (r: Result<Gc, Error>)
    requires
        old(lisp).wf(),
        old(lisp).heap.time + count_empty(old(lisp).heap.nodes@) < usize::MAX,
    ensures
        final(lisp).wf(),
        final(lisp).heap.nodes@.len() == old(lisp).heap.nodes@.len(),
        heap_extends(old(lisp).heap.nodes@, final(lisp).heap.nodes@),
        final(lisp).heap.time + count_empty(final(lisp).heap.nodes@) == old(lisp).heap.time
            + count_empty(old(lisp).heap.nodes@),
        r matches Ok(v) ==> resolves(final(lisp).heap.nodes@, v) && object_at(
            final(lisp).heap.nodes@,
            v,
        ) == Object::Bool(b),
        r is Err ==> final(lisp).heap.nodes@ == old(lisp).heap.nodes@ && final(lisp).heap.time
            == old(lisp).heap.time,
{
    let ghost h0 = lisp.heap;
    let r = if b {
        lisp.t()
    } else {
        lisp.f()
    };
    proof {
        match r {
            Ok(v) => {
                lemma_put_step(h0, lisp.heap, v, Object::Bool(b));
            },
            Err(_) => {},
        }
    }
    r
}

} // verus!

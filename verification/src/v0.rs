//! The first dialect revision: a facade over the arena heap that builds
//! values, reads source text and prints values.

use vstd::prelude::*;

use crate::heap::{
    count_empty, first_empty, list_flag, object_at, put_ok, resolves, slot_wf, Gc, Heap, Object,
    Pair,
};

verus! {

/// Every way an operation of this dialect can fail.
#[derive(Debug, Clone, Copy, PartialEq, Eq, Structural)]
pub enum Error {
    /// The operation is reserved: the one primitive whose behaviour needs
    /// machinery this revision does not build.
    Stub,
    /// Malformed source text: an unmatched close-paren or an unknown literal.
    Read,
    /// The evaluation step budget was exhausted.
    Time,
    /// The heap has no empty slot left: capacity is fixed at construction.
    Space,
    /// A value of the wrong shape: an unbound symbol, a malformed
    /// environment or argument list, or application of a non-procedure.
    Type,
    /// An internal consistency check failed.
    Guard,
    /// A pointer whose slot is empty or whose stamp no longer matches.
    Pointer,
}

/// Turns a runtime consistency check into a result: `Err(Error::Guard)`
/// exactly when the checked condition is false.
pub fn guard(flag: bool) -> (r: Result<(), Error>)
    ensures
        r is Ok <==> flag,
        r matches Err(e) ==> e is Guard,
{
    if flag {
        return Ok(());
    }
    return Err(Error::Guard);
}

/// The first dialect revision: an arena heap and the operations over it.
#[derive(Debug)]
pub struct V0 {
    pub heap: Heap,
}

impl V0 {
    /// The dialect's internal well-formedness: the heap invariant.
    pub open spec fn wf(&self) -> bool {
        self.heap.wf()
    }

    /// Allocates the empty-list literal.
    pub fn unit(&mut self) -> (r: Result<Gc, Error>)
        requires
            old(self).wf(),
            old(self).heap.time < usize::MAX,
        ensures
            final(self).wf(),
            final(self).heap.nodes@.len() == old(self).heap.nodes@.len(),
            match r {
                Ok(p) => put_ok(old(self).heap, final(self).heap, p, Object::Unit),
                Err(e) => e is Space && first_empty(old(self).heap.nodes@)
                    == old(self).heap.nodes@.len() && final(self).heap.nodes@
                    == old(self).heap.nodes@ && final(self).heap.time == old(self).heap.time,
            },
    {
        let object = Object::Unit;
        self.heap.put(object)
    }

    /// Allocates the true literal.
    pub fn t(&mut self) -> (r: Result<Gc, Error>)
        requires
            old(self).wf(),
            old(self).heap.time < usize::MAX,
        ensures
            final(self).wf(),
            final(self).heap.nodes@.len() == old(self).heap.nodes@.len(),
            match r {
                Ok(p) => put_ok(old(self).heap, final(self).heap, p, Object::Bool(true)),
                Err(e) => e is Space && first_empty(old(self).heap.nodes@)
                    == old(self).heap.nodes@.len() && final(self).heap.nodes@
                    == old(self).heap.nodes@ && final(self).heap.time == old(self).heap.time,
            },
    {
        let object = Object::Bool(true);
        self.heap.put(object)
    }

    /// Allocates the false literal.
    pub fn f(&mut self) -> (r: Result<Gc, Error>)
        requires
            old(self).wf(),
            old(self).heap.time < usize::MAX,
        ensures
            final(self).wf(),
            final(self).heap.nodes@.len() == old(self).heap.nodes@.len(),
            match r {
                Ok(p) => put_ok(old(self).heap, final(self).heap, p, Object::Bool(false)),
                Err(e) => e is Space && first_empty(old(self).heap.nodes@)
                    == old(self).heap.nodes@.len() && final(self).heap.nodes@
                    == old(self).heap.nodes@ && final(self).heap.time == old(self).heap.time,
            },
    {
        let object = Object::Bool(false);
        self.heap.put(object)
    }

    /// Allocates a symbol with the given name.
    pub fn symbol(&mut self, value: String) -> (r: Result<Gc, Error>)
        requires
            old(self).wf(),
            old(self).heap.time < usize::MAX,
        ensures
            final(self).wf(),
            final(self).heap.nodes@.len() == old(self).heap.nodes@.len(),
            match r {
                Ok(p) => put_ok(old(self).heap, final(self).heap, p, Object::Symbol(value)),
                Err(e) => e is Space && first_empty(old(self).heap.nodes@)
                    == old(self).heap.nodes@.len() && final(self).heap.nodes@
                    == old(self).heap.nodes@ && final(self).heap.time == old(self).heap.time,
            },
    {
        let object = Object::Symbol(value);
        self.heap.put(object)
    }

    /// Allocates a cons cell.  Both fields are validated first, so a stale
    /// pointer fails deterministically with `Error::Pointer` instead of being
    /// stored; the list flag is computed from the object `snd` designates.
    pub fn pair(&mut self, fst: Gc, snd: Gc) -> (r: Result<Gc, Error>)
        requires
            old(self).wf(),
            old(self).heap.time < usize::MAX,
        ensures
            final(self).wf(),
            final(self).heap.nodes@.len() == old(self).heap.nodes@.len(),
            match r {
                Ok(p) => {
                    &&& resolves(old(self).heap.nodes@, fst)
                    &&& resolves(old(self).heap.nodes@, snd)
                    &&& put_ok(
                        old(self).heap,
                        final(self).heap,
                        p,
                        Object::Pair(
                            Pair {
                                fst,
                                snd,
                                is_list: list_flag(old(self).heap.nodes@, snd),
                            },
                        ),
                    )
                },
                Err(e) => {
                    &&& final(self).heap.nodes@ == old(self).heap.nodes@
                    &&& final(self).heap.time == old(self).heap.time
                    &&& match e {
                        Error::Pointer => !resolves(old(self).heap.nodes@, fst) || !resolves(
                            old(self).heap.nodes@,
                            snd,
                        ),
                        Error::Space => resolves(old(self).heap.nodes@, fst) && resolves(
                            old(self).heap.nodes@,
                            snd,
                        ) && first_empty(old(self).heap.nodes@) == old(self).heap.nodes@.len(),
                        _ => false,
                    }
                },
            },
    {
        match self.heap.get(fst) {
            Ok(_) => {},
            Err(e) => {
                return Err(e);
            },
        }
        let is_list: bool;
        match self.heap.get(snd) {
            Ok(sobj) => {
                match sobj {
                    Object::Unit => {
                        is_list = true;
                    },
                    Object::Pair(value) => {
                        is_list = value.is_list;
                    },
                    _ => {
                        is_list = false;
                    },
                }
            },
            Err(e) => {
                return Err(e);
            },
        }
        let pair = Pair { fst, snd, is_list };
        let object = Object::Pair(pair);
        proof {
            assert(slot_wf(old(self).heap.nodes@, old(self).heap.time, fst.index as int));
            assert(slot_wf(old(self).heap.nodes@, old(self).heap.time, snd.index as int));
            assert(crate::heap::kids(object) == seq![fst, snd]);
        }
        self.heap.put(object)
    }
}

/// Builds a fresh dialect instance owning a heap of the given fixed
/// capacity.
pub fn init(capacity: usize) -> (lisp: V0)
    ensures
        lisp.wf(),
        lisp.heap.unmarked(),
        lisp.heap.time == 0,
        lisp.heap.nodes@.len() == capacity,
        forall|i: int| 0 <= i < capacity ==> #[trigger] lisp.heap.nodes@[i] is Empty,
{
    V0 { heap: Heap::with_capacity(capacity) }
}

/// The default step budget of the facade-level evaluator: deep or looping
/// evaluations beyond it fail with `Error::Time`.
pub const EVAL_FUEL: usize = 1000000;

impl V0 {
    /// Evaluates a value in an environment with the default step budget.
    /// The empty list, booleans and procedure values evaluate to themselves;
    /// a symbol resolves through the environment's lexical chain, then its
    /// dynamic chain; a pair is an application.
    pub fn eval(&mut self, value: Gc, env: Gc) -> (r: Result<Gc, Error>)
        requires
            old(self).wf(),
            old(self).heap.time + count_empty(old(self).heap.nodes@) < usize::MAX,
        ensures
            final(self).wf(),
            final(self).heap.nodes@.len() == old(self).heap.nodes@.len(),
            crate::eval::heap_extends(old(self).heap.nodes@, final(self).heap.nodes@),
            r matches Ok(v) ==> resolves(final(self).heap.nodes@, v),
            !resolves(old(self).heap.nodes@, value) ==> r == Err::<Gc, Error>(Error::Pointer)
                && final(self).heap == old(self).heap,
            resolves(old(self).heap.nodes@, value) ==> match object_at(
                old(self).heap.nodes@,
                value,
            ) {
                Object::Unit => r == Ok::<Gc, Error>(value) && final(self).heap == old(self).heap,
                Object::Bool(_) => r == Ok::<Gc, Error>(value) && final(self).heap == old(
                    self,
                ).heap,
                Object::Proc(_) => r == Ok::<Gc, Error>(value) && final(self).heap == old(
                    self,
                ).heap,
                Object::Symbol(s) => final(self).heap == old(self).heap && (match
                    crate::eval::spec_lookup(old(self).heap.nodes@, s@, env) {
                    crate::eval::LookupR::Found(v) => r == Ok::<Gc, Error>(v),
                    _ => r == Err::<Gc, Error>(Error::Type),
                }),
                Object::Pair(_) => true,
            },
    {
        crate::eval::eval(value, env, self, EVAL_FUEL)
    }
}

impl crate::Lisp for V0 {
    type Value = Gc;

    type Error = Error;

    open spec fn inv(&self) -> bool {
        self.wf()
    }

    open spec fn ready(&self) -> bool {
        self.heap.time + self.heap.nodes@.len() < usize::MAX
    }

    fn unit(&mut self) -> (r: Result<Gc, Error>) {
        V0::unit(self)
    }

    fn t(&mut self) -> (r: Result<Gc, Error>) {
        V0::t(self)
    }

    fn f(&mut self) -> (r: Result<Gc, Error>) {
        V0::f(self)
    }

    fn pair(&mut self, fst: Gc, snd: Gc) -> (r: Result<Gc, Error>) {
        V0::pair(self, fst, snd)
    }

    fn symbol(&mut self, value: String) -> (r: Result<Gc, Error>) {
        V0::symbol(self, value)
    }

    fn read(&mut self, src: &str) -> (r: Result<Vec<Gc>, Error>) {
        V0::read(self, src)
    }

    fn show(&self, value: Gc, buffer: &mut String) -> (r: Result<(), Error>) {
        V0::show(self, value, buffer)
    }
}

} // verus!

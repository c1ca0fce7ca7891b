//! A small Lisp-family runtime core: a fixed-capacity arena heap with
//! generation-stamped pointers and mark-and-sweep collection, a reader that
//! turns character streams into heap-resident S-expressions, a printer, and
//! an evaluator over heap values with an explicit step budget.

use vstd::prelude::*;

pub mod eval;
pub mod gc;
pub mod heap;
pub mod laws;
pub mod reader;
pub mod show;
pub mod v0;

verus! {

/// The capability surface a Lisp dialect offers to a driver: value
/// constructors, a reader and a printer.  `inv` is the dialect's internal
/// well-formedness, which every operation preserves; `ready` holds the
/// machine-limit headroom an allocating operation needs.
pub trait Lisp {
    type Value: Copy;
    type Error;

    spec fn inv(&self) -> bool;

    spec fn ready(&self) -> bool;

    fn unit(&mut self) -> (r: Result<Self::Value, Self::Error>)
        requires
            old(self).inv(),
            old(self).ready(),
        ensures
            final(self).inv(),
    ;

    fn t(&mut self) -> (r: Result<Self::Value, Self::Error>)
        requires
            old(self).inv(),
            old(self).ready(),
        ensures
            final(self).inv(),
    ;

    fn f(&mut self) -> (r: Result<Self::Value, Self::Error>)
        requires
            old(self).inv(),
            old(self).ready(),
        ensures
            final(self).inv(),
    ;

    fn pair(&mut self, fst: Self::Value, snd: Self::Value) -> (r: Result<
        Self::Value,
        Self::Error,
    >)
        requires
            old(self).inv(),
            old(self).ready(),
        ensures
            final(self).inv(),
    ;

    fn symbol(&mut self, value: String) -> (r: Result<Self::Value, Self::Error>)
        requires
            old(self).inv(),
            old(self).ready(),
        ensures
            final(self).inv(),
    ;

    fn read(&mut self, src: &str) -> (r: Result<Vec<Self::Value>, Self::Error>)
        requires
            old(self).inv(),
            old(self).ready(),
        ensures
            final(self).inv(),
    ;

    fn show(&self, value: Self::Value, buffer: &mut String) -> (r: Result<(), Self::Error>)
        requires
            self.inv(),
    ;
}

} // verus!

//! The virtual-machine execution trace and the step-circuit adapter that
//! wraps it for the setup algorithm. A trace is used only to size the
//! constraint systems; it is consumed by the adapter and never persisted.

use vstd::prelude::*;

verus! {

/// An ordered sequence of machine states (program counters) produced by
/// running a program on the VM emulator to completion or to a halting
/// instruction.
#[derive(Clone, Debug, PartialEq, Eq)]
pub struct VMTrace {
    pub pcs: Vec<u64>,
}

impl View for VMTrace {
    type V = Seq<u64>;

    open spec fn view(&self) -> Seq<u64> {
        self.pcs@
    }
}

impl VMTrace {
    /// How many steps the traced execution took.
    pub fn steps(&self) -> (n: usize)
        ensures
            n == self@.len(),
    {
        self.pcs.len()
    }
}

/// Step-circuit adapter: wraps a VM execution trace so the setup algorithm
/// can ask for the constraints, public inputs and witness of any single
/// step. Construction is pure and total for any trace.
#[derive(Clone, Debug, PartialEq, Eq)]
pub struct Tr {
    pub trace: VMTrace,
}

impl View for Tr {
    type V = Seq<u64>;

    open spec fn view(&self) -> Seq<u64> {
        self.trace@
    }
}

impl Tr {
    /// Wraps a trace; the adapter adds nothing and loses nothing.
    pub fn new(t: VMTrace) -> (r: Tr)
        ensures
            r@ == t@,
    {
        Tr { trace: t }
    }

    /// How many steps the wrapped trace holds.
    pub fn steps(&self) -> (n: usize)
        ensures
            n == self@.len(),
    {
        self.trace.steps()
    }
}

} // verus!

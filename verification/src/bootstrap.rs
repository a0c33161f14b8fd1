//! The trace bootstrapper's fixed program. The step circuit's shape is
//! discovered by running a program, not declared statically, so the
//! bootstrapper supplies one whose behaviour is pinned down completely: a
//! no-op followed by an unimplemented instruction, loaded at a fixed base
//! address, so evaluation executes exactly one step and halts.

use vstd::prelude::*;

verus! {

/// Base address at which the bootstrap program is loaded, and the initial
/// program counter of the bootstrap VM.
pub const BOOTSTRAP_BASE: u64 = 0x1000;

/// The eight bytes of the fixed bootstrap program: a no-op instruction,
/// then an unimplemented instruction that halts evaluation.
pub open spec fn bootstrap_program_spec() -> Seq<u8> {
    seq![0x13u8, 0x00u8, 0x00u8, 0x00u8, 0x73u8, 0x10u8, 0x00u8, 0xC0u8]
}

/// Builds the bootstrap program image. The result is the same eight bytes
/// on every call, in every environment: bootstrapping is deterministic.
pub fn bootstrap_program() -> (r: Vec<u8>)
    ensures
        r@ == bootstrap_program_spec(),
{
    let mut v: Vec<u8> = Vec::new();
    v.push(0x13);
    v.push(0x00);
    v.push(0x00);
    v.push(0x00);
    v.push(0x73);
    v.push(0x10);
    v.push(0x00);
    v.push(0xC0);
    proof {
        assert(v@ =~= bootstrap_program_spec());
    }
    v
}

/// A trace has the shape the bootstrap program guarantees: exactly one
/// executed step, and that step at the base address.
pub open spec fn bootstrap_shaped(t: Seq<u64>) -> bool {
    t.len() == 1 && t[0] == BOOTSTRAP_BASE
}

/// Checks that a trace handed back by the VM emulator has the shape the
/// bootstrap program guarantees.
pub fn is_bootstrap_shaped(t: &crate::circuit::VMTrace) -> (r: bool)
    ensures
        r == bootstrap_shaped(t@),
{
    t.pcs.len() == 1 && t.pcs[0] == BOOTSTRAP_BASE
}

} // verus!

//! The parameter generator's decisions. The expensive external work — the
//! VM emulator evaluating the bootstrap program, and the folding-scheme
//! setup algorithm running on the adapted circuit — happens outside this
//! library; the caller performs those calls and hands their outcomes in.
//! This module makes every decision the generator pipeline makes about
//! those outcomes, and is verified for all of them.

use vstd::prelude::*;

verus! {

use crate::circuit::Tr;
use crate::error::{ProofError, SetupError, SynthesisError, VMError};
use crate::params::PublicParams;

/// Normalizes the setup algorithm's error taxonomy: a synthesis failure is
/// recoverable and is surfaced to the caller; a structural/shape error is a
/// defect upstream of the caller and must never reach this function — the
/// caller tests `SetupError::is_fatal` first and aborts, as setup is
/// deterministic and retrying cannot help.
pub fn gen_pp<T>(setup: Result<PublicParams<T>, SetupError>) -> (r: Result<
    PublicParams<T>,
    SynthesisError,
>)
    requires
        !(setup matches Err(SetupError::Shape(_))),
    ensures
        setup matches Ok(pp) ==> (r matches Ok(q) && q == pp),
        setup matches Err(SetupError::Synthesis(se)) ==> (r matches Err(e) && e == se),
{
    match setup {
        Ok(pp) => Ok(pp),
        Err(SetupError::Synthesis(e)) => Err(e),
        Err(SetupError::Shape(_)) => vstd::pervasive::unreached(),
    }
}

/// The generator pipeline for the VM-specific path, over the outcomes of
/// its two external calls: first the VM emulator evaluates the fixed
/// bootstrap program; if that succeeded, the trace is adapted and the setup
/// algorithm runs on it. A VM failure and a synthesis failure are
/// recoverable and surface unchanged; a structural error is fatal and must
/// be handled by the caller before this function (see `gen_pp`).
pub fn gen_vm_pp(
    trace: Result<crate::circuit::VMTrace, VMError>,
    setup: Result<PublicParams<Tr>, SetupError>,
) -> (r: Result<PublicParams<Tr>, ProofError>)
    requires
        trace is Ok ==> !(setup matches Err(SetupError::Shape(_))),
    ensures
        trace matches Err(e) ==> (r matches Err(pe) && pe == ProofError::Vm(e)),
        trace is Ok ==> (setup matches Ok(pp) ==> (r matches Ok(q) && q == pp)),
        trace is Ok ==> (setup matches Err(SetupError::Synthesis(se))
            ==> (r matches Err(pe) && pe == ProofError::Synthesis(se))),
{
    match trace {
        Err(e) => Err(ProofError::Vm(e)),
        Ok(t) => {
            let _adapted = Tr::new(t);
            match gen_pp(setup) {
                Ok(pp) => Ok(pp),
                Err(se) => Err(ProofError::Synthesis(se)),
            }
        },
    }
}

} // verus!

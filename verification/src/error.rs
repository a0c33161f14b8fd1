use vstd::prelude::*;

verus! {

/// Error reported by the virtual-machine emulator while evaluating a
/// program; the library only carries it through to the caller.
#[derive(Clone, Copy, Debug, PartialEq, Eq, Structural)]
pub struct VMError {
    pub code: u64,
}

/// Circuit-synthesis failure reported by the setup algorithm: a witness
/// could not be computed for the supplied circuit instance. Recoverable.
#[derive(Clone, Copy, Debug, PartialEq, Eq, Structural)]
pub struct SynthesisError {
    pub code: u64,
}

/// Structural inconsistency in a generated constraint system. This is a
/// defect upstream of the caller, never a runtime condition the caller can
/// repair, so it is treated as fatal and is never wrapped in `ProofError`.
#[derive(Clone, Copy, Debug, PartialEq, Eq, Structural)]
pub struct ShapeError {
    pub code: u64,
}

/// The setup algorithm's error taxonomy: a structural/shape-construction
/// error or a circuit-synthesis error.
#[derive(Clone, Copy, Debug, PartialEq, Eq, Structural)]
pub enum SetupError {
    Shape(ShapeError),
    Synthesis(SynthesisError),
}

/// A failure while decoding a persisted parameter record. Encoding is total
/// and cannot fail: the canonical encoding is a pure function of the record,
/// and compression accepts every byte string.
#[derive(Clone, Copy, Debug, PartialEq, Eq, Structural)]
pub enum CodecError {
    /// The input was not a valid compressed stream.
    Decompress,
    /// The decompressed payload was not a canonical record encoding.
    Malformed,
}

/// Every recoverable error this library surfaces. File-system errors are
/// raised by the caller that performs the I/O, outside this library.
#[derive(Clone, Copy, Debug, PartialEq, Eq, Structural)]
pub enum ProofError {
    /// The virtual machine could not evaluate the bootstrap program.
    Vm(VMError),
    /// The setup algorithm reported a synthesis failure.
    Synthesis(SynthesisError),
    /// A parameter record could not be encoded or decoded.
    Codec(CodecError),
}

impl SetupError {
    /// Whether this setup error is the fatal, structural kind. A caller
    /// must abort on a fatal error instead of normalizing it.
    pub fn is_fatal(&self) -> (r: bool)
        ensures
            r == (self matches SetupError::Shape(_)),
    {
        match self {
            SetupError::Shape(_) => true,
            SetupError::Synthesis(_) => false,
        }
    }
}

} // verus!

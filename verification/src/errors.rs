//! What translation and sizing can fail with.

use vstd::prelude::*;

verus! {

/// The shape of the circuit is one the translator does not take.
#[derive(Clone, Debug, PartialEq, Eq)]
pub enum StructuralError {
    /// An opcode with no translation; the name is the opcode's.
    UnsupportedOpcode(String),
    /// An expression with more than one multiplication term.
    MultiMul,
    /// An expression whose linear terms name more witnesses than a row has
    /// free wires.
    TooManyLinearTerms,
    /// A term that names the reserved witness zero, or a gadget call whose
    /// inputs have the wrong length.
    Malformed,
}

/// A witness value that the circuit cannot hold.
#[derive(Clone, Copy, Debug, PartialEq, Eq)]
pub enum ValueError {
    /// A value outside the range its width allows.
    OutOfRange,
    /// Public key coordinates that are no point of the curve.
    PublicKeyNotOnCurve,
}

/// The circuit needs more rows than the reference string provides.
#[derive(Clone, Copy, Debug, PartialEq, Eq)]
pub struct CapacityError {
    pub required_k: u32,
    pub available_k: u32,
}

/// What the library can fail with.
#[derive(Clone, Debug, PartialEq, Eq)]
pub enum Error {
    Structure(StructuralError),
    Value(ValueError),
    Capacity(CapacityError),
}

} // verus!

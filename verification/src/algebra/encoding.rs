use vstd::prelude::*;

verus! {

/// Binary operation represented natively by coordinatewise block arithmetic.
#[derive(Clone, Copy, Debug, PartialEq, Eq, Structural)]
pub enum NativeOperation {
    /// Addition modulo the alphabet size.
    AddMod,
    /// Multiplication modulo the alphabet size.
    MulMod,
    /// Bitwise exclusive-or.
    Xor,
    /// Minimum in a total order.
    Min,
    /// Meet in a finite lattice.
    Meet,
    /// Join in a finite lattice.
    Join,
    /// Equality of indicator-encoded symbols.
    EqualityGate,
}

/// Cubic projection used to restore an encoding's coordinate set.
#[derive(Clone, Copy, Debug, PartialEq, Eq, Structural)]
pub enum CleaningMode {
    /// Projects approximate coordinates toward zero or one.
    Binary,
    /// Projects approximate coordinates toward minus or plus one.
    Sign,
}

} // verus!

use vstd::prelude::*;

verus! {

/// Reasons for which a constructor or a computation of this crate refuses its input.
#[derive(Clone, Copy, Debug, PartialEq, Eq, Structural)]
pub enum Error {
    /// A root-of-unity modulus below two.
    ModulusTooSmall,
    /// A modulus that should be prime is not.
    NotPrime,
    /// A generator outside `1..prime`.
    InvalidGenerator,
    /// A generator whose powers repeat before running through the whole group.
    NotGenerator,
    /// A generator whose powers do not return to one after `prime - 1` steps.
    InvalidGeneratorCycle,
    /// A generator whose powers miss some non-zero residue.
    NotPrimitiveRoot,
    /// No primitive root was found below the prime.
    NoPrimitiveRoot,
    /// A bit dimension of zero.
    ZeroDimension,
    /// An alphabet whose size does not fit in a machine word.
    AlphabetTooLarge,
    /// A symbol outside the alphabet.
    ValueOutOfRange,
    /// An output or input vector of the wrong width.
    WidthMismatch,
    /// An alphabet with fewer than two symbols.
    AlphabetTooSmall,
    /// An omitted indicator symbol outside the alphabet.
    OmittedOutOfRange,
    /// A poset with fewer than two elements.
    PosetTooSmall,
    /// A relation table whose length is not the square of the size.
    RelationLength,
    /// A relation that is not reflexive.
    NotReflexive,
    /// A relation that is not antisymmetric.
    NotAntisymmetric,
    /// A relation that is not transitive.
    NotTransitive,
    /// A rooted tree with fewer than two vertices.
    TreeTooSmall,
    /// A parent table without exactly one root.
    RootCount,
    /// A parent index outside the tree.
    ParentOutOfRange,
    /// A vertex that is its own parent.
    SelfParent,
    /// A parent relation with a cycle.
    ParentCycle,
    /// A vertex whose parent chain misses the root.
    RootUnreachable,
    /// A divisor lattice modulus below two.
    DivisorModulusTooSmall,
    /// A poset without a bottom element.
    NoBottom,
    /// A poset without a top element.
    NoTop,
    /// A Möbius coefficient that does not fit in `i128`.
    MobiusOverflow,
    /// A pair of elements without a meet.
    NoMeet,
    /// A pair of elements without a join.
    NoJoin,
    /// A slot count that is not a power of two.
    SlotsNotPowerOfTwo,
    /// A block width of zero.
    ZeroBlockWidth,
    /// A block width larger than the slot count.
    BlockWidthExceedsSlots,
    /// Slot vectors whose length differs from the layout's slot count.
    SlotLengthMismatch,
    /// An encoding whose blocks are wider than the layout's blocks.
    EncodingTooWide,
    /// More symbols than the layout holds.
    CapacityExceeded,
    /// Split slot vectors whose coordinate count differs from the encoding's width.
    CoordinateCountMismatch,
    /// A linear transform without diagonals.
    EmptyTransform,
    /// A baby-step/giant-step schedule with a giant step of zero.
    ZeroGiantStep,
    /// A tensor feature schedule whose product operands do not come before it.
    InvalidSchedule,
    /// A tensor basis whose size does not fit in a machine word.
    TensorTooLarge,
    /// Map dimensions whose product does not fit in a machine word.
    MapTooLarge,
    /// An affine or tensor map with a zero dimension.
    ZeroDimensionMap,
    /// Matrix storage of the wrong length.
    MatrixLength,
    /// Bias storage of the wrong length.
    BiasLength,
    /// A tensor map with fewer than two inputs.
    TooFewInputs,
}

} // verus!

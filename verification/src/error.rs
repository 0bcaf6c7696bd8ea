//! Error kinds of the codec.

use crate::integer::IntValue;
use vstd::prelude::*;

verus! {

/// Why one field could not be decoded.
#[derive(Clone, Copy, Debug, PartialEq, Eq)]
pub enum FieldError {
    /// Fewer bytes are left than the field declares or needs.
    TruncatedInput,
    /// A tagged union starts with a tag that selects no variant.
    UnknownDiscriminator(u8),
}

/// A value is not one that the field codec at hand writes.
#[derive(Clone, Copy, Debug, PartialEq, Eq)]
pub struct ValueMismatch;

/// Why a command could not be built or decoded.
#[derive(Clone, Copy, Debug, PartialEq, Eq)]
pub enum CommandError {
    /// The catalogue holds no descriptor with this identifier.
    UnknownCommandId(IntValue),
    /// The field at `index` of the payload failed to decode.
    FieldDecodeFailure { index: usize, cause: FieldError },
    /// The header yielded no identifier, so there is nothing to dispatch on.
    MissingIdentifier,
    /// The number of values differs from the number of declared fields.
    FieldCount { expected: usize, found: usize },
    /// The value at `index` is not one that the declared field codec writes.
    ValueMismatch { index: usize },
}

/// A set bit that no enumerated flag value stands for.
#[derive(Clone, Copy, Debug, PartialEq, Eq)]
pub struct UnrecognizedBit {
    pub bit: u64,
}

/// Why a catalogue or a flag table was rejected when it was set up.
#[derive(Clone, Copy, Debug, PartialEq, Eq)]
pub enum ConfigurationConflict {
    /// Identifier and type tag were given the same header rank.
    EqualRanks(u8),
    /// The descriptors at `first` and `second` share one identifier.
    DuplicateId { first: usize, second: usize },
    /// The identifier of the descriptor at `index` is not of the catalogue's identifier kind.
    IdentifierKind { index: usize },
    /// The type tag of the descriptor at `index` is not of the catalogue's type-tag kind.
    TypeTagKind { index: usize },
    /// The flag value at `index` does not occupy exactly one bit.
    NotSingleBit { index: usize },
}

} // verus!

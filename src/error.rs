//! The error type of the library.
use vstd::prelude::*;

use crate::vocab::ChannelUnit;

verus! {

/// Which vocabulary a string failed to name.
#[derive(Clone, Copy, Debug, PartialEq, Eq, Structural)]
pub enum VocabularyKind {
    Kind,
    Type,
    Unit,
    ResolutionUnit,
}

/// Every way in which reading or writing a document fails.
#[derive(Clone, Debug, PartialEq, Eq)]
pub enum InkError {
    /// A `<context>` whose id is already taken.
    DuplicateContext,
    /// A `<brush>` whose id is already taken.
    DuplicateBrush,
    /// A trace refers to a context that was never defined.
    UnknownContext,
    /// A trace refers to a brush that was never defined.
    UnknownBrush,
    /// A context holds no channel, or a property names a channel it lacks.
    MissingChannel,
    /// A `brushRef` names a brush that is not defined.
    MissingBrush,
    /// A trace names no brush while several are defined.
    AmbiguousBrush,
    /// An element appears where the document structure does not allow it.
    MalformedDocument,
    /// A required attribute is absent.
    MissingAttribute,
    InvalidVocabulary(VocabularyKind),
    IncompatibleUnits(ChannelUnit, ChannelUnit),
    InvalidNumber,
    InvalidColor,
    InvalidBoolean,
    UnexpectedChar(char),
    TruncatedSegment,
    UnexpectedTrailing,
    MissingPrevious,
    TypeMismatch,
    /// An exact value does not fit the machine integers that hold it.
    Overflow,
    /// A resolution or maximum of zero leaves no finite scaling.
    DegenerateScaling,
    /// The XML tokenizer or emitter failed, with its message.
    XmlError(String),
}

} // verus!

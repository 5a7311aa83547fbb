//! Error taxonomy of the broker core.
//!
//! Errors local to one participant or one object never halt routing for
//! others; only schema-compilation failures are fatal to a whole process.

use vstd::prelude::*;

verus! {

/// A malformed frame or envelope: the message is dropped, the connection kept.
#[derive(Clone, Copy, Debug, PartialEq, Eq, Structural)]
pub enum ProtocolError {
    /// A frame announced a payload longer than the configured maximum.
    FrameTooLarge,
    /// An envelope shorter than its own recipient count and header.
    MalformedEnvelope,
    /// More recipients than the envelope's count byte can carry.
    TooManyRecipients,
    /// An update named a field the object's class does not declare.
    UnknownField,
    /// A field update arrived for an object already being deleted or gone.
    ObjectNotLive,
}

/// A schema-compilation failure: fatal at startup only.
#[derive(Clone, Copy, Debug, PartialEq, Eq, Structural)]
pub enum SchemaError {
    /// Two classes in one schema share a name.
    DuplicateClassName,
    /// Two fields of one class share a name.
    DuplicateFieldName,
}

/// A runtime encode/decode mismatch: the message is dropped, routing goes on.
#[derive(Clone, Copy, Debug, PartialEq, Eq, Structural)]
pub enum CodecError {
    /// The value's shape does not match the declared field type.
    TypeMismatch,
    /// A blob or array exceeds the largest length its prefix can carry.
    OversizedValue,
    /// The input ended before the declared type was fully decoded.
    Truncated,
    /// Bytes were left over after the declared type was fully decoded.
    TrailingBytes,
    /// A class or field identifier does not name a compiled definition.
    SchemaMismatch,
}

/// An invalid recipient set: rejected before dispatch.
#[derive(Clone, Copy, Debug, PartialEq, Eq, Structural)]
pub enum RoutingError {
    /// A message with an empty recipient set is rejected before routing.
    EmptyRecipients,
}

/// A storage-backend failure, surfaced to the requester as a failed
/// completion; the per-object queue continues with the next operation.
#[derive(Clone, Copy, Debug, PartialEq, Eq, Structural)]
pub enum PersistenceError {
    /// The backend reported failure for this operation.
    BackendFailure,
    /// The operation's completion did not arrive before its deadline.
    Timeout,
}

/// A fault of the process-control surface.
#[derive(Clone, Copy, Debug, PartialEq, Eq, Structural)]
pub enum ControlError {
    /// The process was already started once.
    AlreadyStarted,
    /// The process was already asked to shut down.
    AlreadyClosed,
}

} // verus!

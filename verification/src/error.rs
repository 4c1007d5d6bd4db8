use vstd::prelude::*;

verus! {

/// Errors surfaced by the decode pipeline. Every decode-layer function
/// returns a recoverable `Result` with one of these instead of panicking.
#[derive(Clone, Copy, Debug, PartialEq, Eq, Structural)]
pub enum DemoError {
    /// The cursor ran out of bits or bytes in the middle of a field.
    Truncated,
    /// The fixed file header did not match the expected magic.
    InvalidHeader,
    /// A string-table id was referenced that was never declared.
    UnknownTable,
    /// An entity-class id was referenced that was never declared.
    UnknownClass,
    /// An entity handle was referenced that is not live.
    UnknownEntity,
    /// A compressed body could not be decompressed.
    DecompressionFailed,
    /// A variable-length integer violated the encoding's structural rules.
    MalformedVarint,
    /// A field-path or diff entry violated the encoding's structural rules.
    MalformedPath,
    /// A serializer definition references itself, directly or indirectly.
    CyclicSerializer,
    /// A body is larger than the buffer size this decoder accepts.
    BodyTooLarge,
}

} // verus!

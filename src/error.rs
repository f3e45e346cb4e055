use vstd::prelude::*;

verus! {

/// Every way a header check or a query can fail.
#[derive(Debug, Clone, Copy, PartialEq, Eq, Structural)]
pub enum DtbError {
    /// The first word of the blob is not the devicetree magic.
    InvalidMagic,
    /// The blob's last compatible version is newer than this reader.
    UnsupportedVersion,
    /// A query named both or neither of `device_type` and `compatible`.
    AmbiguousOrEmptyPredicate,
    /// The structure block does not open with a node.
    ExpectedBeginNode,
    /// A token that has no place where it stands.
    UnexpectedToken,
    /// The root node is not followed by the end token.
    TrailingGarbage,
    /// A property is shorter than what must be read from it.
    InvalidPropertySize,
    /// The root node declares `reg`.
    RegAtRoot,
    /// A cell count is wider than a machine word.
    CellsOverflow,
    /// A region does not fit in the window of a `ranges` translation.
    RangesOverflow,
    /// A name or string value is not valid UTF-8.
    Utf8DecodeError,
    /// A record would run past the end of the blob.
    OutOfBounds,
}

} // verus!

//! The recoverable, caller-visible error conditions of the arena, the
//! cursor and the wire codec.  Every operation signals rather than
//! silently correcting or clamping.

use vstd::prelude::*;

verus! {

/// Names one of the two logical fields of the wire record.
#[derive(Clone, Copy, Debug, PartialEq, Eq, Structural)]
pub enum FieldTag {
    Root,
    NodeMap,
}

#[derive(Clone, Copy, Debug, PartialEq, Eq, Structural)]
pub enum FlowError {
    /// An id was referenced but is absent from the node map or from the
    /// active graph.
    NotFound,
    /// The target of a chain already has an ancestor.
    AlreadyAttached,
    /// A root was already designated.
    RootTaken,
    /// The node still lists descendants; erasing is rejected until the
    /// subtree is empty.
    HasDescendants,
    /// The cursor is pinned and resists the requested move.
    CursorPinned,
    /// Decode: the carried id appears on two entries of the incoming
    /// node sequence.
    DuplicateIdentity(u64),
    /// Decode, field-tagged shape: a field name outside the schema.
    UnknownField,
    /// Decode, field-tagged shape: the named field never occurred.
    MissingField(FieldTag),
    /// Decode, field-tagged shape: the named field occurred twice.
    DuplicateField(FieldTag),
    /// Decode, positional shape: the element at the carried index is
    /// missing.
    TruncatedSequence(usize),
    /// Decode: the carried root id is absent from the decoded node set.
    InvalidRoot(u64),
    /// Wander: no valid target exists along the requested axis.
    NoSuchNeighbor,
}

} // verus!

use vstd::prelude::*;

verus! {

/// A failure while decoding one bundle item or the bundle header.
#[derive(Debug, Clone, Copy, PartialEq, Eq, Structural)]
pub enum DecodeErrorKind {
    /// Fewer bytes were available than a fixed-length field requires.
    TruncatedInput,
    /// An invalid presence-flag discriminant or a tag-count mismatch.
    MalformedInput,
    /// An unrecognized two-byte signature-variant tag; carries the tag read.
    UnsupportedSignatureVariant(u16),
    /// The tag blob does not conform to the fixed tag schema.
    SchemaDecodeError,
    /// A counter field whose upper half is nonzero.
    CountOverflow,
}

/// A failure while iterating the decoded-item sequence of a bundle,
/// attributed either to the header or to one table row.
#[derive(Debug, Clone, Copy, PartialEq, Eq, Structural)]
pub enum BundleStreamError {
    /// Decoding the item count or the index table failed.
    Header { kind: DecodeErrorKind },
    /// Decoding the item of one table row failed.
    Row { index: usize, declared_length: u128, kind: DecodeErrorKind },
}

/// A failure while reconstructing a transaction body from chunks.
#[derive(Debug, Clone, Copy, PartialEq, Eq, Structural)]
pub enum ChunkError {
    /// A fetched chunk was empty, or overshot the addressable byte space,
    /// so the reconstruction could not progress.
    ShortOrEmptyChunk,
    /// The transport reported that the chunk has not propagated yet.
    ChunkPending,
    /// An opaque transport failure.
    TransportError,
}

} // verus!

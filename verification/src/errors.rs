use vstd::prelude::*;

verus! {

/// Errors surfaced by signature loading, patch parsing and patch application.
///
/// I/O and HTTP failures happen outside this crate and are reported by the
/// caller that performs the I/O; the variants here cover everything the
/// core format logic itself can reject.
#[derive(Clone, Copy, Debug, PartialEq, Eq, Structural)]
pub enum DeltaError {
    /// The first byte of a signature or patch names a format version other
    /// than the one this crate implements; carries both versions.
    VersionMismatch { got: u8, want: u8 },
    /// An unknown operation tag, or a record cut short by the end of the
    /// input.
    Framing,
    /// A signature whose chunk table violates the chunk invariants: a chunk
    /// longer than `max_size`, or offsets that decrease.
    ChunkParamInvariant,
}

} // verus!

//! Error kinds reported by the codec.

use vstd::prelude::*;

verus! {

/// Everything that can go wrong while decoding or encoding a document.
///
/// Header-level violations of fixed format constants (wrong magic signature,
/// unknown byte-order mark, unknown encoding flag) are all reported as
/// `BadMagic`. `MalformedLabelTable` covers entry indices that are out of
/// range or not dense `0..n`, whether they come from the label table or the
/// style table. `InvalidInputPath`, `IoFailure` and `TextDecodeFailure` are
/// reserved for the unverified shell around the codec: the core never
/// produces them itself.
#[derive(Clone, Copy, Debug, PartialEq, Eq, Structural)]
pub enum MsbtError {
    /// A fixed header constant (magic signature, byte-order mark, encoding
    /// flag) holds an unknown value.
    BadMagic,
    /// The buffer ended before a declared field or payload was complete.
    UnexpectedEof,
    /// The attribute table's entry count disagrees with the label table.
    MalformedAttributeTable,
    /// An entry index is out of range or the indices are not dense `0..n`.
    MalformedLabelTable,
    /// Two entries carry the same label string.
    DuplicateLabel,
    /// A control tag's framing is truncated or its closing marker is absent.
    InvalidControlTag,
    /// A structurally required section (`LBL1`, `ATR1`, `TXT2`) is absent.
    MissingRequiredSection,
    /// A conversion input path is neither a file nor a directory.
    InvalidInputPath,
    /// A filesystem operation failed.
    IoFailure,
    /// The structured-text form of a document could not be parsed.
    TextDecodeFailure,
}

} // verus!

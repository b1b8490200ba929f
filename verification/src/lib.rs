//! Codec for the MSBT binary localized-text container format.
//!
//! An MSBT file stores a table of labelled text entries: a custom hash table
//! of labels (`LBL1`), per-entry opaque attribute blobs (`ATR1`), optional
//! per-entry style ids (`NLI1`), and the text itself (`TXT2`) as UTF-16 or
//! UTF-8 code units interleaved with embedded control tags. Every multi-byte
//! integer is read in the byte order selected by the header's byte-order
//! mark. This crate decodes such a file into a structured [`Msbt`] document
//! and encodes a document back into canonical bytes.

pub mod endian;
pub mod batch;
pub mod bytes;
pub mod codec;
pub mod error;
pub mod hash;
pub mod model;
pub mod runs;
pub mod tables;

pub use endian::ByteOrder;
pub use endian::Encoding;
pub use error::MsbtError;
pub use model::ExtraSection;
pub use model::Msbt;
pub use model::MsbtEntry;
pub use model::MsbtRun;

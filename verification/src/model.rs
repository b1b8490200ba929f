//! The structured document model and its well-formedness.
//!
//! A document is an ordered list of labelled entries. The list order is the
//! bucket order of the label hash table — the order a decoder recovers — so
//! that an unmodified document re-encodes to the same table layout.

use vstd::prelude::*;

use crate::endian::ByteOrder;
use crate::endian::Encoding;
use crate::hash::bucket_of;
use crate::hash::spec_bucket_count;

verus! {

/// One piece of an entry's content: literal text as code units, or an
/// embedded control tag whose parameters are opaque bytes.
#[derive(Debug, Clone, PartialEq, Eq)]
pub enum MsbtRun {
    Text(Vec<u16>),
    ControlTag { group: u16, kind: u16, parameters: Vec<u8> },
}

/// Mathematical model of a [`MsbtRun`].
pub enum SpecRun {
    Text(Seq<u16>),
    ControlTag { group: u16, kind: u16, parameters: Seq<u8> },
}

/// One labelled text entry.
#[derive(Debug, Clone, PartialEq, Eq)]
pub struct MsbtEntry {
    /// The entry's unique label, as the bytes stored in the label table.
    pub label: Vec<u8>,
    /// The entry's opaque attribute blob; its width is uniform across a
    /// document.
    pub attributes: Vec<u8>,
    /// The entry's numeric style id, if the document carries a style table.
    pub style: Option<u32>,
    /// The interleaving of text and control tags, in stream order.
    pub contents: Vec<MsbtRun>,
}

/// Mathematical model of a [`MsbtEntry`].
pub struct SpecEntry {
    pub label: Seq<u8>,
    pub attributes: Seq<u8>,
    pub style: Option<u32>,
    pub contents: Seq<SpecRun>,
}

/// A section with an unrecognized magic tag, carried through opaquely.
#[derive(Debug, Clone, PartialEq, Eq)]
pub struct ExtraSection {
    /// The section's four-byte magic tag.
    pub magic: Vec<u8>,
    /// The section's payload, not interpreted.
    pub payload: Vec<u8>,
}

/// A whole document: header fields, entries in bucket order, and any
/// unrecognized sections carried through.
#[derive(Debug, Clone, PartialEq, Eq)]
pub struct Msbt {
    pub byte_order: ByteOrder,
    pub encoding: Encoding,
    pub version: u16,
    pub entries: Vec<MsbtEntry>,
    pub extra_sections: Vec<ExtraSection>,
}

/// Mathematical model of a [`Msbt`] document.
pub struct SpecDoc {
    pub byte_order: ByteOrder,
    pub encoding: Encoding,
    pub version: u16,
    pub entries: Seq<SpecEntry>,
    pub extra_sections: Seq<(Seq<u8>, Seq<u8>)>,
}

impl View for MsbtRun {
    type V = SpecRun;

    open spec fn view(&self) -> SpecRun {
        match self {
            MsbtRun::Text(units) => SpecRun::Text(units@),
            MsbtRun::ControlTag { group, kind, parameters } => SpecRun::ControlTag {
                group: *group,
                kind: *kind,
                parameters: parameters@,
            },
        }
    }
}

impl View for MsbtEntry {
    type V = SpecEntry;

    open spec fn view(&self) -> SpecEntry {
        SpecEntry {
            label: self.label@,
            attributes: self.attributes@,
            style: self.style,
            contents: self.contents@.map_values(|r: MsbtRun| r@),
        }
    }
}

impl View for Msbt {
    type V = SpecDoc;

    open spec fn view(&self) -> SpecDoc {
        SpecDoc {
            byte_order: self.byte_order,
            encoding: self.encoding,
            version: self.version,
            entries: self.entries@.map_values(|e: MsbtEntry| e@),
            extra_sections: self.extra_sections@.map_values(|x: ExtraSection| (x.magic@, x.payload@)),
        }
    }
}

/// The four-byte magic of the label table section, `LBL1`.
pub open spec fn magic_lbl1() -> Seq<u8> {
    seq![0x4Cu8, 0x42u8, 0x4Cu8, 0x31u8]
}

/// The four-byte magic of the attribute table section, `ATR1`.
pub open spec fn magic_atr1() -> Seq<u8> {
    seq![0x41u8, 0x54u8, 0x52u8, 0x31u8]
}

/// The four-byte magic of the style index section, `NLI1`.
pub open spec fn magic_nli1() -> Seq<u8> {
    seq![0x4Eu8, 0x4Cu8, 0x49u8, 0x31u8]
}

/// The four-byte magic of the text section, `TXT2`.
pub open spec fn magic_txt2() -> Seq<u8> {
    seq![0x54u8, 0x58u8, 0x54u8, 0x32u8]
}

/// The eight-byte magic signature that opens every document.
pub open spec fn header_magic() -> Seq<u8> {
    seq![0x4Du8, 0x73u8, 0x67u8, 0x53u8, 0x74u8, 0x64u8, 0x42u8, 0x6Eu8]
}

impl SpecRun {
    /// A run the codec can frame: text is non-empty and free of the two
    /// sentinel code units (and single-byte in UTF-8 mode); tag parameters
    /// fit their 16-bit length field.
    pub open spec fn wf(self, enc: Encoding) -> bool {
        match self {
            SpecRun::Text(units) => units.len() > 0 && forall|i: int|
                0 <= i < units.len() ==> units[i] != 0x0E && units[i] != 0x0F && (enc
                    == Encoding::Utf8 ==> units[i] < 0x100),
            SpecRun::ControlTag { group, kind, parameters } => parameters.len() < 0x10000,
        }
    }
}

/// Run sequences as a decoder produces them: every run well-formed, and no
/// two adjacent text runs (a decoder always flushes maximal text runs).
pub open spec fn contents_wf(runs: Seq<SpecRun>, enc: Encoding) -> bool {
    (forall|i: int| 0 <= i < runs.len() ==> #[trigger] runs[i].wf(enc)) && (forall|i: int|
        0 <= i < runs.len() - 1 ==> !((#[trigger] runs[i]) is Text && runs[i + 1] is Text))
}

impl SpecEntry {
    /// The label fits its 16-bit length field and is non-empty; the contents
    /// are well-formed.
    pub open spec fn wf(self, enc: Encoding) -> bool {
        1 <= self.label.len() < 0x10000 && self.attributes.len() < 0x100000000 && contents_wf(
            self.contents,
            enc,
        )
    }
}

impl SpecDoc {
    /// The labels of all entries, in order.
    pub open spec fn labels(self) -> Seq<Seq<u8>> {
        self.entries.map_values(|e: SpecEntry| e.label)
    }

    /// No two entries share a label.
    pub open spec fn labels_unique(self) -> bool {
        forall|i: int, j: int|
            0 <= i < j < self.entries.len() ==> self.entries[i].label != self.entries[j].label
    }

    /// Every entry's attribute blob has the same width.
    pub open spec fn attrs_uniform(self) -> bool {
        forall|i: int|
            0 <= i < self.entries.len() ==> (#[trigger] self.entries[i]).attributes.len()
                == self.entries[0].attributes.len()
    }

    /// Entries stand in bucket order for the bucket count their own number
    /// selects: the order a decode of this document's encoding recovers.
    pub open spec fn bucket_ordered(self) -> bool {
        forall|i: int, j: int|
            0 <= i < j < self.entries.len() ==> bucket_of(
                self.entries[i].label,
                spec_bucket_count(self.entries.len() as int),
            ) <= bucket_of(self.entries[j].label, spec_bucket_count(self.entries.len() as int))
    }

    /// Unrecognized sections have a four-byte magic distinct from the four
    /// known tags, and a payload that fits its length field.
    pub open spec fn extras_wf(self) -> bool {
        forall|i: int|
            0 <= i < self.extra_sections.len() ==> {
                let (magic, payload) = #[trigger] self.extra_sections[i];
                magic.len() == 4 && magic != magic_lbl1() && magic != magic_atr1() && magic
                    != magic_nli1() && magic != magic_txt2() && payload.len() < 0x100000000
            }
    }

    /// A document the codec round-trips: well-formed entries with unique
    /// labels, uniform attribute width, bucket order, and opaque extras.
    pub open spec fn wf(self) -> bool {
        self.entries.len() < 0x100000000 && (forall|i: int|
            0 <= i < self.entries.len() ==> #[trigger] self.entries[i].wf(self.encoding))
            && self.labels_unique() && self.attrs_uniform() && self.bucket_ordered()
            && self.extras_wf()
    }
}

} // verus!

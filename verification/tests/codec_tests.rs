use msbt_codec::endian;
use msbt_codec::hash;
use msbt_codec::ByteOrder;
use msbt_codec::Encoding;
use msbt_codec::ExtraSection;
use msbt_codec::Msbt;
use msbt_codec::MsbtEntry;
use msbt_codec::MsbtError;
use msbt_codec::MsbtRun;

fn text(s: &str) -> MsbtRun {
    MsbtRun::Text(s.encode_utf16().collect())
}

fn entry(label: &str, runs: Vec<MsbtRun>) -> MsbtEntry {
    MsbtEntry {
        label: label.as_bytes().to_vec(),
        attributes: Vec::new(),
        style: None,
        contents: runs,
    }
}

fn two_entry_doc(encoding: Encoding) -> Msbt {
    // buckets: hash("A") = 0x41, 0x41 % 101 = 65; hash("B") = 0x42 % 101 = 66
    Msbt {
        byte_order: ByteOrder::Little,
        encoding,
        version: 3,
        entries: vec![entry("A", vec![text("foo")]), entry("B", vec![text("bar")])],
        extra_sections: Vec::new(),
    }
}

#[test]
fn hash_formula_exact() {
    // h = (0 * 0x492 + 'A') = 65; h = (65 * 0x492 + 'B') = 76116
    let ab = b"AB".to_vec();
    assert_eq!(hash::compute_label_hash(&ab), 76116);
    assert_eq!(hash::compute_bucket(&ab, 101), 76116 % 101);
    assert_eq!(hash::bucket_count(2), 101);
    assert_eq!(hash::bucket_count(500), 500);
}

#[test]
fn header_layout_little_endian() {
    let doc = two_entry_doc(Encoding::Utf16);
    let bytes = doc.to_binary(false).unwrap();
    assert_eq!(&bytes[0..8], b"MsgStdBn");
    assert_eq!(&bytes[8..10], &[0xFF, 0xFE]);
    assert_eq!(bytes[10], 0);
    assert_eq!(bytes[11], 0); // UTF-16 flag
    assert_eq!(&bytes[12..14], &[3, 0]); // version 3
    assert_eq!(&bytes[14..16], &[3, 0]); // LBL1, ATR1, TXT2
    let total = u32::from_le_bytes([bytes[18], bytes[19], bytes[20], bytes[21]]);
    assert_eq!(total as usize, bytes.len());
    assert_eq!(bytes.len() % 16, 0);
    assert_eq!(&bytes[32..36], b"LBL1");
}

#[test]
fn header_layout_big_endian() {
    let doc = two_entry_doc(Encoding::Utf16);
    let bytes = doc.to_binary(true).unwrap();
    assert_eq!(&bytes[8..10], &[0xFE, 0xFF]);
    let total = u32::from_be_bytes([bytes[18], bytes[19], bytes[20], bytes[21]]);
    assert_eq!(total as usize, bytes.len());
}

#[test]
fn two_entry_round_trip_little_utf16() {
    let doc = two_entry_doc(Encoding::Utf16);
    let bytes = doc.to_binary(false).unwrap();
    let back = Msbt::from_binary(&bytes).unwrap();
    assert_eq!(back, doc);
    // re-encoding a decoded, unmodified document is byte-identical
    assert_eq!(back.to_binary(false).unwrap(), bytes);
}

#[test]
fn two_entry_decoded_tree_shape() {
    let doc = two_entry_doc(Encoding::Utf16);
    let bytes = doc.to_binary(false).unwrap();
    let back = Msbt::from_binary(&bytes).unwrap();
    assert_eq!(back.entries.len(), 2);
    assert_eq!(back.entries[0].label, b"A".to_vec());
    assert_eq!(back.entries[0].contents, vec![text("foo")]);
    assert_eq!(back.entries[1].label, b"B".to_vec());
    assert_eq!(back.entries[1].contents, vec![text("bar")]);
    assert!(back.entries[0].attributes.is_empty());
    assert_eq!(back.entries[0].style, None);
}

#[test]
fn round_trip_big_endian_utf16() {
    let mut doc = two_entry_doc(Encoding::Utf16);
    doc.byte_order = ByteOrder::Big;
    let bytes = doc.to_binary(true).unwrap();
    let back = Msbt::from_binary(&bytes).unwrap();
    assert_eq!(back, doc);
}

#[test]
fn round_trip_utf8_both_orders() {
    let mut doc = two_entry_doc(Encoding::Utf8);
    let bytes = doc.to_binary(false).unwrap();
    assert_eq!(bytes[11], 1); // UTF-8 flag
    assert_eq!(Msbt::from_binary(&bytes).unwrap(), doc);
    doc.byte_order = ByteOrder::Big;
    let bytes_be = doc.to_binary(true).unwrap();
    assert_eq!(Msbt::from_binary(&bytes_be).unwrap(), doc);
}

#[test]
fn control_tag_round_trip() {
    // one entry whose contents interleave text and a control tag
    let runs = vec![
        text("Hello "),
        MsbtRun::ControlTag { group: 0, kind: 3, parameters: vec![0x00, 0x01] },
        text("!"),
    ];
    let doc = Msbt {
        byte_order: ByteOrder::Little,
        encoding: Encoding::Utf16,
        version: 3,
        entries: vec![entry("A", runs.clone())],
        extra_sections: Vec::new(),
    };
    let bytes = doc.to_binary(false).unwrap();
    let back = Msbt::from_binary(&bytes).unwrap();
    assert_eq!(back.entries[0].contents, runs);
    // the tag framing re-encodes byte-identically
    assert_eq!(back.to_binary(false).unwrap(), bytes);
}

#[test]
fn control_tag_framing_bytes() {
    // sentinel 0x0E, group, kind, parameter length, raw bytes, marker 0x0F
    let runs = vec![MsbtRun::ControlTag { group: 0, kind: 3, parameters: vec![0x00, 0x01] }];
    let doc = Msbt {
        byte_order: ByteOrder::Little,
        encoding: Encoding::Utf16,
        version: 3,
        entries: vec![entry("A", runs)],
        extra_sections: Vec::new(),
    };
    let bytes = doc.to_binary(false).unwrap();
    let expected: &[u8] = &[
        0x0E, 0x00, 0x00, 0x00, 0x03, 0x00, 0x02, 0x00, 0x00, 0x01, 0x0F, 0x00,
    ];
    assert!(bytes.windows(expected.len()).any(|w| w == expected));
}

#[test]
fn duplicate_label_rejected() {
    let doc = Msbt {
        byte_order: ByteOrder::Little,
        encoding: Encoding::Utf16,
        version: 3,
        entries: vec![entry("A", vec![text("x")]), entry("A", vec![text("y")])],
        extra_sections: Vec::new(),
    };
    assert_eq!(doc.to_binary(false), Err(MsbtError::DuplicateLabel));
}

#[test]
fn attribute_width_mismatch_rejected() {
    let mut e2 = entry("B", vec![text("y")]);
    e2.attributes = vec![1, 2];
    let doc = Msbt {
        byte_order: ByteOrder::Little,
        encoding: Encoding::Utf16,
        version: 3,
        entries: vec![entry("A", vec![text("x")]), e2],
        extra_sections: Vec::new(),
    };
    assert_eq!(doc.to_binary(false), Err(MsbtError::MalformedAttributeTable));
}

#[test]
fn truncated_header_rejected() {
    let doc = two_entry_doc(Encoding::Utf16);
    let bytes = doc.to_binary(false).unwrap();
    assert_eq!(Msbt::from_binary(&bytes[0..10]), Err(MsbtError::UnexpectedEof));
    assert_eq!(Msbt::from_binary(&[]), Err(MsbtError::UnexpectedEof));
}

#[test]
fn payload_past_buffer_end_rejected() {
    // a header that declares one section whose payload runs past the end
    let mut bytes = Vec::new();
    bytes.extend_from_slice(b"MsgStdBn");
    bytes.extend_from_slice(&[0xFF, 0xFE]); // little endian
    bytes.push(0);
    bytes.push(0); // UTF-16
    bytes.extend_from_slice(&[3, 0]); // version
    bytes.extend_from_slice(&[1, 0]); // one section
    bytes.extend_from_slice(&[0, 0]);
    bytes.extend_from_slice(&[0, 0, 0, 0]); // stored size (re-derived)
    bytes.extend_from_slice(&[0; 10]);
    bytes.extend_from_slice(b"LBL1");
    bytes.extend_from_slice(&[100, 0, 0, 0]); // declares 100 payload bytes
    bytes.extend_from_slice(&[0; 8]);
    bytes.extend_from_slice(&[0; 4]); // only 4 remain
    assert_eq!(Msbt::from_binary(&bytes), Err(MsbtError::UnexpectedEof));
}

#[test]
fn bad_magic_rejected() {
    let doc = two_entry_doc(Encoding::Utf16);
    let mut bytes = doc.to_binary(false).unwrap();
    bytes[0] = b'X';
    assert_eq!(Msbt::from_binary(&bytes), Err(MsbtError::BadMagic));
}

#[test]
fn missing_required_section_rejected() {
    // a valid header with zero sections
    let mut bytes = Vec::new();
    bytes.extend_from_slice(b"MsgStdBn");
    bytes.extend_from_slice(&[0xFF, 0xFE]);
    bytes.push(0);
    bytes.push(0);
    bytes.extend_from_slice(&[3, 0]);
    bytes.extend_from_slice(&[0, 0]); // no sections
    bytes.extend_from_slice(&[0, 0]);
    bytes.extend_from_slice(&[32, 0, 0, 0]);
    bytes.extend_from_slice(&[0; 10]);
    assert_eq!(Msbt::from_binary(&bytes), Err(MsbtError::MissingRequiredSection));
}

#[test]
fn styles_and_extras_round_trip() {
    let mut e1 = entry("A", vec![text("foo")]);
    e1.style = Some(7);
    e1.attributes = vec![9];
    let mut e2 = entry("B", vec![text("bar")]);
    e2.attributes = vec![4];
    let doc = Msbt {
        byte_order: ByteOrder::Little,
        encoding: Encoding::Utf16,
        version: 3,
        entries: vec![e1, e2],
        extra_sections: vec![ExtraSection { magic: b"TSY1".to_vec(), payload: vec![1, 2, 3] }],
    };
    let bytes = doc.to_binary(false).unwrap();
    let back = Msbt::from_binary(&bytes).unwrap();
    assert_eq!(back, doc);
    assert_eq!(back.entries[0].style, Some(7));
    assert_eq!(back.to_binary(false).unwrap(), bytes);
}

#[test]
fn endian_primitives_exact() {
    let mut out = Vec::new();
    endian::write_u16(&mut out, ByteOrder::Little, 0x1234);
    endian::write_u16(&mut out, ByteOrder::Big, 0x1234);
    endian::write_u32(&mut out, ByteOrder::Little, 0xDEADBEEF);
    endian::write_u32(&mut out, ByteOrder::Big, 0xDEADBEEF);
    assert_eq!(
        out,
        vec![0x34, 0x12, 0x12, 0x34, 0xEF, 0xBE, 0xAD, 0xDE, 0xDE, 0xAD, 0xBE, 0xEF]
    );
    assert_eq!(endian::read_u16(&out, 0, ByteOrder::Little), Ok(0x1234));
    assert_eq!(endian::read_u16(&out, 2, ByteOrder::Big), Ok(0x1234));
    assert_eq!(endian::read_u32(&out, 4, ByteOrder::Little), Ok(0xDEADBEEF));
    assert_eq!(endian::read_u32(&out, 8, ByteOrder::Big), Ok(0xDEADBEEF));
    assert_eq!(endian::read_u32(&out, 9, ByteOrder::Big), Err(MsbtError::UnexpectedEof));
}

#[test]
fn decoded_duplicate_labels_rejected() {
    // hand-built little-endian file whose label table lists "A" twice
    let mut b = Vec::new();
    b.extend_from_slice(b"MsgStdBn");
    b.extend_from_slice(&[0xFF, 0xFE]); // little endian
    b.push(0);
    b.push(0); // UTF-16
    b.extend_from_slice(&[3, 0]); // version
    b.extend_from_slice(&[3, 0]); // three sections
    b.extend_from_slice(&[0, 0]);
    b.extend_from_slice(&[0, 0, 0, 0]); // stored size (re-derived)
    b.extend_from_slice(&[0; 10]);
    // LBL1: one bucket holding ("A", 0) and ("A", 1)
    b.extend_from_slice(b"LBL1");
    b.extend_from_slice(&[22, 0, 0, 0]);
    b.extend_from_slice(&[0; 8]);
    b.extend_from_slice(&[1, 0, 0, 0]); // bucket count
    b.extend_from_slice(&[2, 0, 0, 0]); // pairs in bucket 0
    b.extend_from_slice(&[1, 0, 0x41, 0, 0, 0, 0]); // "A" -> 0
    b.extend_from_slice(&[1, 0, 0x41, 1, 0, 0, 0]); // "A" -> 1
    b.extend_from_slice(&[0; 10]); // pad to 16
    // ATR1: zero width, two entries
    b.extend_from_slice(b"ATR1");
    b.extend_from_slice(&[8, 0, 0, 0]);
    b.extend_from_slice(&[0; 8]);
    b.extend_from_slice(&[0, 0, 0, 0]);
    b.extend_from_slice(&[2, 0, 0, 0]);
    b.extend_from_slice(&[0; 8]); // pad to 16
    // TXT2: entries "x" and "y"
    b.extend_from_slice(b"TXT2");
    b.extend_from_slice(&[16, 0, 0, 0]);
    b.extend_from_slice(&[0; 8]);
    b.extend_from_slice(&[2, 0, 0, 0]);
    b.extend_from_slice(&[12, 0, 0, 0]);
    b.extend_from_slice(&[14, 0, 0, 0]);
    b.extend_from_slice(&[0x78, 0, 0x79, 0]);
    assert_eq!(Msbt::from_binary(&b), Err(MsbtError::DuplicateLabel));
}

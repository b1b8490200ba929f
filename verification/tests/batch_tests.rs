use msbt_codec::batch;
use msbt_codec::ByteOrder;
use msbt_codec::Encoding;
use msbt_codec::Msbt;
use msbt_codec::MsbtEntry;
use msbt_codec::MsbtError;
use msbt_codec::MsbtRun;

fn doc(label: &str, content: &str) -> Msbt {
    Msbt {
        byte_order: ByteOrder::Little,
        encoding: Encoding::Utf16,
        version: 3,
        entries: vec![MsbtEntry {
            label: label.as_bytes().to_vec(),
            attributes: Vec::new(),
            style: None,
            contents: vec![MsbtRun::Text(content.encode_utf16().collect())],
        }],
        extra_sections: Vec::new(),
    }
}

#[test]
fn batch_isolates_one_malformed_file() {
    // three files, the middle one malformed: exactly one failure, named,
    // while the other two outputs stand
    let good1 = doc("A", "one").to_binary(false).unwrap();
    let good2 = doc("B", "two").to_binary(false).unwrap();
    let bad = vec![0u8; 8];
    let results = batch::decode_batch(vec![
        ("a.msbt".to_string(), good1),
        ("b.msbt".to_string(), bad),
        ("c.msbt".to_string(), good2),
    ]);
    assert_eq!(results.len(), 3);
    assert_eq!(results[0].0, "a.msbt");
    assert!(results[0].1.is_ok());
    assert_eq!(results[1].0, "b.msbt");
    assert_eq!(results[1].1, Err(MsbtError::UnexpectedEof));
    assert_eq!(results[2].0, "c.msbt");
    assert!(results[2].1.is_ok());
    let failures = results.iter().filter(|r| r.1.is_err()).count();
    assert_eq!(failures, 1);
    let first = batch::first_error(&results);
    assert_eq!(first, Some((1, MsbtError::UnexpectedEof)));
}

#[test]
fn batch_all_good_has_no_error() {
    let good = doc("A", "one").to_binary(false).unwrap();
    let results = batch::decode_batch(vec![("a.msbt".to_string(), good)]);
    assert_eq!(batch::first_error(&results), None);
}

use yolo_binding::metadata::{metadata_block, scan_metadata};
use yolo_binding::legacy::class_name;
use yolo_binding::names::{names_table, read_fields, MetadataError};
use yolo_binding::text::{decimal_chars, parse_trimmed_i64};

fn model_bytes(prefix: &[u8], block: &[u8], rest: &[u8]) -> Vec<u8> {
    let mut v = prefix.to_vec();
    v.extend_from_slice(&[0x5A; 9]);
    v.extend_from_slice(block);
    v.extend_from_slice(&[0x50, 0x4B, 0x07, 0x08]);
    v.extend_from_slice(rest);
    v
}

#[test]
fn metadata_roundtrip() {
    let block = br#"{"names":{"0":"cat","1":"dog"}}"#;
    let bytes = model_bytes(b"PK\x03\x04header", block, b"\x00\x01more PK\x07\x08 data");
    assert_eq!(metadata_block(&bytes), Some(block.to_vec()));
}

#[test]
fn scan_records_signature() {
    let bytes = model_bytes(b"", b"ab", b"zz");
    assert_eq!(scan_metadata(&bytes), b"abPK\x07\x08".to_vec());
}

#[test]
fn scan_without_start_records_nothing() {
    let bytes = b"no marker here PK\x07\x08 tail".to_vec();
    assert_eq!(scan_metadata(&bytes), Vec::<u8>::new());
    assert_eq!(metadata_block(&bytes), None);
}

#[test]
fn scan_without_end_records_to_the_end() {
    let mut bytes = vec![0x5A; 9];
    bytes.extend_from_slice(b"abcdef");
    assert_eq!(scan_metadata(&bytes), b"abcdef".to_vec());
    assert_eq!(metadata_block(&bytes), Some(b"ab".to_vec()));
}

#[test]
fn scan_misses_signature_after_repeated_p() {
    // After "P", a second "P" resets the match to 0 without counting itself.
    let mut bytes = vec![0x5A; 9];
    bytes.extend_from_slice(b"xPPK\x07\x08yz");
    assert_eq!(scan_metadata(&bytes), b"xPPK\x07\x08yz".to_vec());
}

#[test]
fn longer_run_of_start_bytes() {
    // Ten 0x5A: recording starts after the ninth, so the tenth is recorded.
    let mut bytes = vec![0x5A; 10];
    bytes.extend_from_slice(b"abPK\x07\x08");
    assert_eq!(metadata_block(&bytes), Some(vec![0x5A, b'a', b'b']));
}

#[test]
fn names_table_reads_keys() {
    let t = names_table(br#"{"other":1,"names":{"0":"cat"," 1 ":"dog","2":"bird"}}"#).unwrap();
    assert_eq!(t.len(), 3);
    assert_eq!(t[&0], "cat");
    assert_eq!(t[&1], "dog");
    assert_eq!(t[&2], "bird");
}

#[test]
fn names_table_later_equal_key_wins() {
    // Keys come in string order: " 1" before "1".
    let t = names_table(br#"{"names":{"1":"second"," 1":"first"}}"#).unwrap();
    assert_eq!(t.len(), 1);
    assert_eq!(t[&1], "second");
}

#[test]
fn names_table_errors() {
    assert!(matches!(names_table(b"not json"), Err(MetadataError::Json(_))));
    assert!(matches!(names_table(b"[1,2]"), Err(MetadataError::NoNamesObject)));
    assert!(matches!(names_table(br#"{"stride":32}"#), Err(MetadataError::NoNamesObject)));
    assert!(matches!(names_table(br#"{"names":["a"]}"#), Err(MetadataError::NoNamesObject)));
    match names_table(br#"{"names":{"0":"a","x":"b"}}"#) {
        Err(MetadataError::BadClassKey(k)) => assert_eq!(k, "x"),
        other => panic!("unexpected {:?}", other),
    }
    match names_table(br#"{"names":{"0":"a","1":2}}"#) {
        Err(MetadataError::NotClassName(k)) => assert_eq!(k, "1"),
        other => panic!("unexpected {:?}", other),
    }
}

#[test]
fn names_table_empty_object() {
    let t = names_table(br#"{"names":{}}"#).unwrap();
    assert!(t.is_empty());
}

#[test]
fn parse_keys_like_from_str() {
    assert_eq!(parse_trimmed_i64(" 42 "), Some(42));
    assert_eq!(parse_trimmed_i64("\t-7\n"), Some(-7));
    assert_eq!(parse_trimmed_i64("+7"), Some(7));
    assert_eq!(parse_trimmed_i64("\u{3000}5\u{a0}"), Some(5));
    assert_eq!(parse_trimmed_i64("-9223372036854775808"), Some(i64::MIN));
    assert_eq!(parse_trimmed_i64("9223372036854775807"), Some(i64::MAX));
    assert_eq!(parse_trimmed_i64("9223372036854775808"), None);
    assert_eq!(parse_trimmed_i64("-9223372036854775809"), None);
    assert_eq!(parse_trimmed_i64("+"), None);
    assert_eq!(parse_trimmed_i64("-"), None);
    assert_eq!(parse_trimmed_i64(""), None);
    assert_eq!(parse_trimmed_i64("   "), None);
    assert_eq!(parse_trimmed_i64("1a"), None);
    assert_eq!(parse_trimmed_i64("1 2"), None);
    assert_eq!(parse_trimmed_i64("+-1"), None);
    assert_eq!(parse_trimmed_i64("007"), Some(7));
    for s in ["0", " 12", "-3 ", "99999999999999999999", "x", "\u{2003}8"] {
        assert_eq!(parse_trimmed_i64(s), s.trim().parse::<i64>().ok());
    }
}

#[test]
fn class_names_by_index() {
    let fields = read_fields(br#"{"0":"person","1":"bicycle","-2":"neg","3":4,"07":"pad"}"#).unwrap();
    assert_eq!(class_name(&fields, 0).as_deref(), Some("person"));
    assert_eq!(class_name(&fields, 1).as_deref(), Some("bicycle"));
    assert_eq!(class_name(&fields, -2).as_deref(), Some("neg"));
    assert_eq!(class_name(&fields, 3), None);
    assert_eq!(class_name(&fields, 7), None);
    assert_eq!(class_name(&fields, -4), None);
    let not_object = read_fields(b"[\"person\"]").unwrap();
    assert!(not_object.is_none());
    assert_eq!(class_name(&not_object, 0), None);
    assert!(matches!(read_fields(b"{"), Err(MetadataError::Json(_))));
}

#[test]
fn decimal_like_to_string() {
    for n in [0i64, 7, -7, 10, 123456789, i64::MAX, i64::MIN, -100] {
        let s: String = decimal_chars(n).into_iter().collect();
        assert_eq!(s, n.to_string());
    }
}

#[test]
fn decimal_then_parse_roundtrip() {
    for n in [0i64, 1, -1, 42, -42, 1000, i64::MAX, i64::MIN, 9_000_000_000] {
        let s: String = decimal_chars(n).into_iter().collect();
        assert_eq!(parse_trimmed_i64(&s), Some(n));
    }
}

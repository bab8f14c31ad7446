use bytestack::data::{padding_data_size, DataMagicHeader, DataRecord, DataRecordHeader, ALIGNMENT_SIZE};
use bytestack::index::{IndexMagicHeader, IndexRecord};
use bytestack::index_id::parse_index_id;
use bytestack::meta::{MetaMagicHeader, MetaRecord};
use bytestack::paths::{
    get_data_file_path, get_index_file_path, get_meta_file_path, parse_data_stack_id,
    parse_index_stack_id, parse_meta_stack_id,
};
use bytestack::errors::{CustomError, ErrorKind};

#[test]
fn test_padding_data_size() {
    let ok = |size: usize| -> bool { (size + DataRecordHeader::size()) % ALIGNMENT_SIZE == 0 };
    assert!(ok(padding_data_size(0)));
    assert!(ok(padding_data_size(1234)));
    assert!(ok(padding_data_size(4321)));
}

#[test]
fn test_data_magic_header_size() {
    let temp = DataMagicHeader::new(0);
    assert!(DataMagicHeader::size() == temp.encode().len());
    let wire = bincode::serialized_size(&(47494638u64, 0u64)).unwrap() as usize;
    assert!(DataMagicHeader::size() == wire);
}

#[test]
fn test_data_record_header_size() {
    let temp = DataRecordHeader::new(0, 0, 0);
    assert!(temp.encode().len() == DataRecordHeader::size());
    let wire = bincode::serialized_size(&(257758u32, 0u32, 0u32, 0u32, 857752u32)).unwrap() as usize;
    assert!(wire == DataRecordHeader::size());
}

#[test]
fn test_index_record_size() {
    let ir = IndexRecord::new(0, 0, 0, 0, 0);
    assert!(ir.encode().len() == IndexRecord::size());
    let wire = bincode::serialized_size(&(0u32, 0u64, 0u32, 0u64, 0u32)).unwrap() as usize;
    assert!(wire == IndexRecord::size());
}

#[test]
fn test_create_and_parse() {
    let ir = IndexRecord::new(12345, 2004, 3, 4, 5);
    let index_id = format!("{},{}", 100, ir.index_id());
    let parse_index_id = parse_index_id(&index_id).unwrap();
    assert_eq!(parse_index_id.stack_id, 100);
    assert_eq!(parse_index_id.cookie, 12345);
    assert_eq!(parse_index_id.offset_data, 2004);
}

#[test]
fn test_data_encode_and_decode() {
    let dr = DataRecord::new(1234, 4096, 1243, vec![1; 4096]);
    let buffer = dr.encode();
    let ndr = DataRecord::new_from_bytes(buffer).unwrap();
    assert!(dr.header == ndr.header);
    assert!(dr.data == ndr.data);
    assert!(dr.padding == ndr.padding);
}

#[test]
fn index_test_index_encode_and_decode() {
    let ir = IndexRecord::new(1, 3, 2, 4, 28);
    let bytes = ir.encode();
    let nir = IndexRecord::new_from_bytes(&bytes).unwrap();
    assert!(ir == nir);
}

#[test]
fn meta_test_index_encode_and_decode() {
    let mr = MetaRecord::new(7, 4096, 11, 13, String::from("a-name"), vec![1, 2, 3]);
    let line = mr.encode_line();
    let nmr = MetaRecord::new_from_bytes(&line).unwrap();
    assert!(mr == nmr);
    assert_eq!(nmr.filename, "a-name");
}

// The index-record wire form matches the serde/bincode layout the format was
// defined with: little-endian fixed-width fields in declaration order.
#[test]
fn index_record_matches_bincode_layout() {
    let ir = IndexRecord::new(0xdeadbeef, 0x1122334455667788, 0x10203040, 0x99aabbccddeeff00, 77);
    let wire = bincode::serialize(&(
        0xdeadbeefu32,
        0x1122334455667788u64,
        0x10203040u32,
        0x99aabbccddeeff00u64,
        77u32,
    ))
    .unwrap();
    assert_eq!(ir.encode(), wire);
}

#[test]
fn magic_headers_match_bincode_layout() {
    let imh = IndexMagicHeader::new(42);
    assert_eq!(imh.encode(), bincode::serialize(&(5201314u64, 42u64)).unwrap());
    let dmh = DataMagicHeader::new(42);
    assert_eq!(dmh.encode(), bincode::serialize(&(47494638u64, 42u64)).unwrap());
}

// The meta line matches what serde_json would emit for the same fields in
// declaration order, plus the newline.
#[test]
fn meta_line_matches_serde_json() {
    let mr = MetaRecord::new(
        1700000000,
        4096,
        0xdeadbeef,
        512,
        String::from("dir/a \"quoted\"\n\u{1}name-\u{2603}"),
        vec![0, 1, 255],
    );
    let mut obj = serde_json::Map::new();
    obj.insert("create_time".to_string(), serde_json::Value::from(1700000000u64));
    obj.insert("offset_data".to_string(), serde_json::Value::from(4096u64));
    obj.insert("size_data".to_string(), serde_json::Value::from(512u32));
    obj.insert("cookie".to_string(), serde_json::Value::from(0xdeadbeefu32));
    obj.insert(
        "filename".to_string(),
        serde_json::Value::from("dir/a \"quoted\"\n\u{1}name-\u{2603}"),
    );
    obj.insert("extra".to_string(), serde_json::Value::from(vec![0u8, 1u8, 255u8]));
    let mut expected = serde_json::to_vec(&serde_json::Value::Object(obj)).unwrap();
    expected.push(b'\n');
    assert_eq!(mr.encode_line(), expected);
    assert_eq!(mr.size(), expected.len());
}

#[test]
fn meta_magic_line_matches_serde_json() {
    let mh = MetaMagicHeader::new(77);
    let mut obj = serde_json::Map::new();
    obj.insert("meta_magic_number".to_string(), serde_json::Value::from(1314920u64));
    obj.insert("stack_id".to_string(), serde_json::Value::from(77u64));
    let mut expected = serde_json::to_vec(&serde_json::Value::Object(obj)).unwrap();
    expected.push(b'\n');
    assert_eq!(mh.encode_line(), expected);
    assert_eq!(mh.size(), expected.len());
}

// A payload of length 0 is legal and occupies exactly one aligned block:
// a 20-byte header plus 4076 zeros.
#[test]
fn empty_payload_block() {
    assert_eq!(padding_data_size(0), 4076);
    let dr = DataRecord::new(1, 0, 0, Vec::new());
    assert_eq!(dr.size(), 4096);
}

// A payload whose length plus the header is exactly a multiple of 4096 gets
// no padding.
#[test]
fn exact_fit_payload_has_no_padding() {
    let len = 4096 - 20;
    assert_eq!(padding_data_size(len), len);
    let dr = DataRecord::new(1, len as u32, 0, vec![9; len]);
    assert_eq!(dr.padding.len(), 0);
    assert_eq!(dr.size(), 4096);
}

#[test]
fn parse_index_id_rejects_bad_shapes() {
    assert!(parse_index_id("no-comma").is_none());
    assert!(parse_index_id("12,short").is_none());
    assert!(parse_index_id("x,123456789").is_none());
    assert!(parse_index_id("5,1000000012345678").is_some());
    // Only eight hex digits after the comma leaves no offset digits.
    assert!(parse_index_id("5,00d0b8ef").is_none());
    // More than 24 hex digits on the right half is refused.
    assert!(parse_index_id("5,1234567890123456789012345").is_none());
}

#[test]
fn parse_stack_id_reads_the_identifier_grammar() {
    // The same grammar parse_index_id reads: offset 2004 in plain hex, then
    // the cookie as the last eight hex digits.
    let id = format!("{},{}", 100, IndexRecord::new(12345, 2004, 3, 4, 5).index_id());
    let parsed = bytestack::index_id::parse_stack_id(&id).unwrap();
    assert_eq!(parsed.stack_id(), 100);
    assert_eq!(parsed.file_offset(), 2004);
    assert_eq!(parsed.cookie(), 12345);
    assert!(bytestack::index_id::parse_stack_id("no-comma").is_none());
    assert!(bytestack::index_id::parse_stack_id("100,short").is_none());
}

#[test]
fn paths_round_trip() {
    assert_eq!(get_index_file_path("pre/", 0x2a), "pre/0x002a.idx");
    assert_eq!(get_data_file_path("pre/", 0x2a), "pre/0x002a.data");
    assert_eq!(get_meta_file_path("pre/", 0x2a), "pre/0x002a.meta");
    assert_eq!(get_index_file_path("", 0x12345), "0x12345.idx");
    assert_eq!(parse_index_stack_id("0x002a.idx"), Some(0x2a));
    assert_eq!(parse_meta_stack_id("0x002a.meta"), Some(0x2a));
    assert_eq!(parse_data_stack_id("0x12345.data"), Some(0x12345));
    assert_eq!(parse_index_stack_id("002a.idx"), None);
    assert_eq!(parse_index_stack_id("0x002a.meta"), None);
    assert_eq!(parse_index_stack_id("0xzz.idx"), None);
}

#[test]
fn error_kinds_carry_their_messages() {
    let e = ErrorKind::ConfigError(CustomError::new(String::from("missing field")));
    assert_eq!(e.message(), "missing field");
    let e = ErrorKind::CloseError(CustomError::new(String::from("close failed")));
    assert_eq!(e.message(), "close failed");
}

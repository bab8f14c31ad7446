use bytestack::controller::{AllocationState, PreLoadState};
use bytestack::errors::ErrorKind;
use bytestack::handler::{parse_file_url, parse_s3_url, BytestackHandler, Config, S3};
use bytestack::meta::MetaRecord;
use bytestack::reader::{list_stack_ids, StoreEntry};

fn fresh_config() -> Config {
    Config {
        controller: String::from("http://localhost:8080"),
        s3: S3 {
            region: String::from("default"),
            aws_access_key_id: String::from("user"),
            aws_secret_access_key: String::from("secret"),
            endpoint: String::from("http://localhost:9000"),
        },
    }
}

// Stack identifiers are handed out strictly increasing and never repeat.
#[test]
fn next_stack_id_is_monotonic() {
    let mut alloc = AllocationState::new(1);
    let mut last = alloc.next_stack_id().unwrap();
    for _ in 0..100 {
        let next = alloc.next_stack_id().unwrap();
        assert!(next > last);
        last = next;
    }
}

#[test]
fn exhausted_counter_is_refused() {
    let mut alloc = AllocationState::new(u64::MAX);
    match alloc.next_stack_id() {
        Err(ErrorKind::ControllerError(_)) => {},
        other => panic!("wrong result: {:?}", other),
    }
}

// pre_load(s, 3) then pre_load(s, 1): exactly one active entry remains, and
// the removed ones are gone or Deleting.
#[test]
fn preload_shrinks_to_target() {
    let mut alloc = AllocationState::new(1);
    let three = alloc.pre_load(42, 3, 1000);
    assert_eq!(three.len(), 3);
    let one = alloc.pre_load(42, 1, 2000);
    assert_eq!(one.len(), 1);
    let located = alloc.locate_stack(42);
    let active = located
        .iter()
        .filter(|e| !matches!(e.state, PreLoadState::Deleting))
        .count();
    assert_eq!(active, 1);
}

// The replica target is clamped to MAX_PRELOAD_REPLICAS and never below
// zero.
#[test]
fn preload_clamps_its_target() {
    let mut alloc = AllocationState::new(1);
    let many = alloc.pre_load(7, 100, 1000);
    assert_eq!(many.len(), 5);
    let none = alloc.pre_load(7, -3, 2000);
    assert_eq!(none.len(), 0);
}

// Preloads of one stack do not disturb another stack's entries.
#[test]
fn preload_leaves_other_stacks_alone() {
    let mut alloc = AllocationState::new(1);
    alloc.pre_load(1, 2, 10);
    alloc.pre_load(2, 4, 20);
    alloc.pre_load(1, 0, 30);
    assert_eq!(alloc.locate_stack(2).len(), 4);
    assert_eq!(alloc.locate_stack(1).len(), 0);
}

#[test]
fn un_pre_load_marks_everything_deleting() {
    let mut alloc = AllocationState::new(1);
    alloc.pre_load(9, 3, 10);
    alloc.un_pre_load(9);
    let located = alloc.locate_stack(9);
    assert_eq!(located.len(), 3);
    assert!(located.iter().all(|e| matches!(e.state, PreLoadState::Deleting)));
}

#[test]
fn register_and_query_sources() {
    let mut alloc = AllocationState::new(1);
    match alloc.query_registered_source(5) {
        Err(ErrorKind::ControllerError(_)) => {},
        other => panic!("wrong result: {:?}", other),
    }
    alloc.register_stack_source(5, vec![String::from("s3://a/"), String::from("s3://b/")]);
    alloc.register_stack_source(5, vec![String::from("s3://b/"), String::from("s3://c/")]);
    let locs = alloc.query_registered_source(5).unwrap();
    assert_eq!(locs.len(), 3);
    alloc.de_register_stack_source(5, vec![String::from("s3://a/"), String::from("s3://x/")]);
    let locs = alloc.query_registered_source(5).unwrap();
    assert_eq!(locs, vec![String::from("s3://b/"), String::from("s3://c/")]);
}

#[test]
fn s3_urls_split_into_bucket_and_prefix() {
    let (bucket, prefix) = parse_s3_url("s3://test/dadadad.bs/").unwrap();
    assert_eq!(bucket, "test");
    assert_eq!(prefix, "dadadad.bs/");
    match parse_s3_url("file:///tmp/x/") {
        Err(ErrorKind::InvalidArgument(_)) => {},
        other => panic!("wrong result: {:?}", other),
    }
    assert!(parse_s3_url("s3://nopath").is_err());
    assert!(parse_s3_url("s3:///empty-bucket/").is_err());
    assert_eq!(parse_file_url("file:///tmp/bs/"), Some(String::from("/tmp/bs/")));
    assert_eq!(parse_file_url("s3://a/b/"), None);
}

#[test]
fn handler_opens_a_writer_under_the_prefix() {
    let handler = BytestackHandler::new(fresh_config());
    let w = handler.open_writer("s3://test/bs1/").unwrap();
    assert_eq!(w.prefix, "bs1/");
    assert!(handler.open_writer("nonsense").is_err());
}

#[test]
fn listings_keep_only_index_files() {
    let entries = vec![
        StoreEntry { name: String::from("0x0001.idx"), is_file: true, last_modified_millis: 1 },
        StoreEntry { name: String::from("0x0001.data"), is_file: true, last_modified_millis: 1 },
        StoreEntry { name: String::from("0x0001.meta"), is_file: true, last_modified_millis: 1 },
        StoreEntry { name: String::from("0x0002.idx"), is_file: false, last_modified_millis: 1 },
        StoreEntry { name: String::from("junk.idx"), is_file: true, last_modified_millis: 1 },
        StoreEntry { name: String::from("0x00ff.idx"), is_file: true, last_modified_millis: 1 },
    ];
    assert_eq!(list_stack_ids(&entries), vec![1, 0xff]);
}

// The settings wire form decodes exactly what bincode's default layout
// writes for the four strings in field order.
#[test]
fn s3_settings_decode_matches_bincode() {
    let wire = bincode::serialize(&(
        String::from("default"),
        String::from("user"),
        String::from("secret"),
        String::from("http://localhost:9000"),
    ))
    .unwrap();
    let s3 = S3::new_from_bytes(&wire).unwrap();
    assert_eq!(s3.region, "default");
    assert_eq!(s3.aws_access_key_id, "user");
    assert_eq!(s3.aws_secret_access_key, "secret");
    assert_eq!(s3.endpoint, "http://localhost:9000");
    assert!(S3::new_from_bytes(&wire[..wire.len() - 1]).is_err());
    assert!(S3::new_from_bytes(&[1, 2, 3]).is_err());
}

// A meta line written by the library is ordinary JSON to an off-the-shelf
// parser, and a truncated line is refused by the walk without advancing it.
#[test]
fn meta_lines_interoperate_and_garbage_is_refused() {
    let mr = MetaRecord::new(11, 4096, 3, 4, String::from("inter-op \"x\""), vec![9]);
    let line = mr.encode_line();
    let v: serde_json::Value = serde_json::from_slice(&line).unwrap();
    assert_eq!(v["create_time"], 11);
    assert_eq!(v["cookie"], 3);
    assert_eq!(v["filename"], "inter-op \"x\"");
    assert!(MetaRecord::new_from_bytes(&line[..line.len() - 3]).is_err());

    let ir = bytestack::index::IndexRecord::new(3, 4096, 1, 0, line.len() as u32);
    let mut it = bytestack::reader::StackMetaIter::new(vec![ir]);
    assert!(it.feed(b"not a meta line").is_err());
    assert_eq!(it.next_meta_size(), Some(line.len() as u32));
    let (ir2, mr2) = it.feed(&line).unwrap();
    assert_eq!(ir2.cookie, 3);
    assert_eq!(mr2.cookie, 3);
    assert!(it.next_meta_size().is_none());
}

// Growing inserts fresh Init entries; a later grow lock-touches the kept
// ones; shrinking drops from the front and keeps the touched tail.
#[test]
fn preload_touches_kept_and_inserts_fresh() {
    let mut alloc = AllocationState::new(1);
    let two = alloc.pre_load(3, 2, 500);
    assert!(two.iter().all(|e| matches!(e.state, PreLoadState::Init)
        && e.creation_timestamp == 500
        && e.update_timestamp == i64::MIN));
    let three = alloc.pre_load(3, 3, 600);
    assert_eq!(three.len(), 3);
    assert!(three[0].creation_timestamp == 500 && three[0].update_timestamp == 600);
    assert!(three[1].creation_timestamp == 500 && three[1].update_timestamp == 600);
    assert!(three[2].creation_timestamp == 600 && three[2].update_timestamp == i64::MIN);
    let one = alloc.pre_load(3, 1, 700);
    assert_eq!(one.len(), 1);
    assert_eq!(one[0].creation_timestamp, 600);
    assert_eq!(one[0].update_timestamp, 700);
}

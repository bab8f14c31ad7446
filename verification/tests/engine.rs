use std::collections::HashMap;

use bytestack::controller::AllocationState;
use bytestack::data::{padding_data_size, DataRecordHeader, ALIGNMENT_SIZE};
use bytestack::errors::ErrorKind;
use bytestack::index_id::parse_index_id;
use bytestack::reader::{fetch, full_size, list_stack, StackDataIter, StackMetaIter};
use bytestack::writer::{PutOutput, StackWriter};

// The duplicate of the padding test from the other record-type module.
#[test]
fn data_test_padding_data_size() {
    let ok = |size: usize| -> bool { (size + DataRecordHeader::size()) % ALIGNMENT_SIZE == 0 };
    assert!(ok(padding_data_size(0)));
    assert!(ok(padding_data_size(1234)));
    assert!(ok(padding_data_size(4321)));
}

/// The three files of one stack, materialized in memory.
struct Files {
    index: Vec<u8>,
    meta: Vec<u8>,
    data: Vec<u8>,
}

/// Append one put's chunks to the in-memory stack files, creating the stack
/// where the put opened one.
fn apply(stacks: &mut HashMap<u64, Files>, out: &PutOutput) {
    if let Some(op) = &out.opened {
        stacks.insert(
            op.stack_id,
            Files {
                index: op.index_magic.clone(),
                meta: op.meta_magic.clone(),
                data: op.data_block.clone(),
            },
        );
    }
    let f = stacks.get_mut(&out.stack_id).unwrap();
    f.index.extend_from_slice(&out.index_chunk);
    f.meta.extend_from_slice(&out.meta_chunk);
    f.data.extend_from_slice(&out.data_chunk);
}

fn put_one(
    w: &mut StackWriter,
    alloc: &mut AllocationState,
    stacks: &mut HashMap<u64, Files>,
    payload: Vec<u8>,
    filename: String,
    extra: Option<Vec<u8>>,
) -> PutOutput {
    let fresh = if w.wants_rollover(payload.len()) {
        alloc.next_stack_id().unwrap()
    } else {
        0
    };
    let out = w.put(payload, filename, extra, fresh).unwrap();
    apply(stacks, &out);
    out
}

// Write 100 records of 4096 bytes each and read everything back: list_stack
// yields 100 records summing to 100 * 4096 payload bytes, and every fetch
// with the CRC check on returns the original bytes.
#[test]
fn write_and_read_back_hundred_records() {
    let mut w = StackWriter::new(String::from("bs1/"));
    let mut alloc = AllocationState::new(1);
    let mut stacks: HashMap<u64, Files> = HashMap::new();
    let mut ids: Vec<String> = Vec::new();
    for i in 0..100u8 {
        let out = put_one(
            &mut w,
            &mut alloc,
            &mut stacks,
            vec![i; 4096],
            format!("filename-{}", i),
            None,
        );
        ids.push(out.index_id.clone());
    }
    assert_eq!(stacks.len(), 1);
    let (sid, files) = stacks.iter().next().unwrap();
    let records = list_stack(*sid, &files.index[0..16], &files.index[16..]).unwrap();
    assert_eq!(records.len(), 100);
    assert_eq!(full_size(&records), 100 * 4096);
    for (i, id) in ids.iter().enumerate() {
        let parsed = parse_index_id(id).unwrap();
        assert_eq!(parsed.stack_id, *sid);
        let payload = fetch(
            *sid,
            &files.data[0..16],
            &files.data[parsed.offset_data as usize..],
            parsed.cookie,
            true,
        )
        .unwrap();
        assert_eq!(payload, vec![i as u8; 4096]);
    }
}

// One record with an empty payload: size_data is 0, the data offset advances
// by exactly one block, and a CRC-checked fetch returns an empty buffer.
#[test]
fn empty_payload_record() {
    let mut w = StackWriter::new(String::from("bs2/"));
    let mut alloc = AllocationState::new(7);
    let mut stacks: HashMap<u64, Files> = HashMap::new();
    let out = put_one(&mut w, &mut alloc, &mut stacks, Vec::new(), String::from("empty"), None);
    let files = &stacks[&out.stack_id];
    assert_eq!(files.data.len(), 4096 + 4096);
    let records = list_stack(out.stack_id, &files.index[0..16], &files.index[16..]).unwrap();
    assert_eq!(records.len(), 1);
    assert_eq!(records[0].size_data, 0);
    assert_eq!(records[0].offset_data, 4096);
    let parsed = parse_index_id(&out.index_id).unwrap();
    let payload = fetch(
        out.stack_id,
        &files.data[0..16],
        &files.data[parsed.offset_data as usize..],
        parsed.cookie,
        true,
    )
    .unwrap();
    assert!(payload.is_empty());
}

// Rollover: with a size bound of 5 MiB and 4 MiB payloads, the second put
// starts a second stack; the first stack's residual capacity is smaller than
// one more record, and the second stack's first record starts at 4096.
#[test]
fn rollover_opens_a_second_stack() {
    let bound: u64 = 5 * 1024 * 1024;
    let payload_len: usize = 4 * 1024 * 1024;
    let mut w = StackWriter::with_limit(String::from("bs3/"), bound);
    let mut alloc = AllocationState::new(100);
    let mut stacks: HashMap<u64, Files> = HashMap::new();
    let first = put_one(
        &mut w,
        &mut alloc,
        &mut stacks,
        vec![1; payload_len],
        String::from("a"),
        None,
    );
    assert!(first.opened.is_some());
    let second = put_one(
        &mut w,
        &mut alloc,
        &mut stacks,
        vec![2; payload_len],
        String::from("b"),
        None,
    );
    assert!(second.opened.is_some());
    assert_eq!(second.closed_stack, Some(first.stack_id));
    assert_ne!(first.stack_id, second.stack_id);
    assert_eq!(stacks.len(), 2);
    // Residual capacity of the first stack after its record.
    let first_accumulated = (stacks[&first.stack_id].data.len() - 4096) as u64;
    assert!(bound - first_accumulated < payload_len as u64 + 20);
    let parsed = parse_index_id(&second.index_id).unwrap();
    assert_eq!(parsed.offset_data, 4096);
}

// A payload bigger than the whole size bound still goes in, alone in its own
// stack, and the very next put rolls over again.
#[test]
fn giant_payload_sits_alone() {
    let bound: u64 = 64 * 1024;
    let mut w = StackWriter::with_limit(String::from("bs4/"), bound);
    let mut alloc = AllocationState::new(500);
    let mut stacks: HashMap<u64, Files> = HashMap::new();
    let giant = put_one(
        &mut w,
        &mut alloc,
        &mut stacks,
        vec![7; 100 * 1024],
        String::from("giant"),
        None,
    );
    assert!(w.wants_rollover(0));
    let next = put_one(&mut w, &mut alloc, &mut stacks, vec![8; 16], String::from("small"), None);
    assert_ne!(giant.stack_id, next.stack_id);
    let files = &stacks[&giant.stack_id];
    let records = list_stack(giant.stack_id, &files.index[0..16], &files.index[16..]).unwrap();
    assert_eq!(records.len(), 1);
}

// A fetch whose cookie is off by one is an InvalidArgument whose message
// names the cookie mismatch — not a NotFound-like error.
#[test]
fn cookie_mismatch_is_invalid_argument() {
    let mut w = StackWriter::new(String::from("bs5/"));
    let mut alloc = AllocationState::new(1);
    let mut stacks: HashMap<u64, Files> = HashMap::new();
    let out = put_one(&mut w, &mut alloc, &mut stacks, vec![5; 64], String::from("x"), None);
    let files = &stacks[&out.stack_id];
    let parsed = parse_index_id(&out.index_id).unwrap();
    let err = fetch(
        out.stack_id,
        &files.data[0..16],
        &files.data[parsed.offset_data as usize..],
        parsed.cookie.wrapping_add(1),
        true,
    )
    .unwrap_err();
    match err {
        ErrorKind::InvalidArgument(e) => assert!(e.origin.contains("cookie mismatch")),
        other => panic!("wrong kind: {:?}", other),
    }
}

// A rewritten magic header: list_stack refuses with MagicMismatch without
// looking at the body, and fetch refuses the data file the same way.
#[test]
fn corrupted_magic_headers_are_refused() {
    let mut w = StackWriter::new(String::from("bs6/"));
    let mut alloc = AllocationState::new(1);
    let mut stacks: HashMap<u64, Files> = HashMap::new();
    let out = put_one(&mut w, &mut alloc, &mut stacks, vec![3; 10], String::from("x"), None);
    let files = stacks.get_mut(&out.stack_id).unwrap();
    files.index[0] ^= 0xff;
    files.data[0] ^= 0xff;
    match list_stack(out.stack_id, &files.index[0..16], &files.index[16..]) {
        Err(ErrorKind::MagicMismatch(_)) => {},
        other => panic!("wrong result: {:?}", other.map(|v| v.len())),
    }
    let parsed = parse_index_id(&out.index_id).unwrap();
    match fetch(
        out.stack_id,
        &files.data[0..16],
        &files.data[parsed.offset_data as usize..],
        parsed.cookie,
        true,
    ) {
        Err(ErrorKind::MagicMismatch(_)) => {},
        other => panic!("wrong result: {:?}", other.map(|v| v.len())),
    }
}

// A flipped payload byte: the CRC check refuses with CrcMismatch; without
// the check the corrupted bytes come back.
#[test]
fn crc_mismatch_is_reported() {
    let mut w = StackWriter::new(String::from("bs7/"));
    let mut alloc = AllocationState::new(1);
    let mut stacks: HashMap<u64, Files> = HashMap::new();
    let out = put_one(&mut w, &mut alloc, &mut stacks, vec![9; 32], String::from("x"), None);
    let files = stacks.get_mut(&out.stack_id).unwrap();
    let parsed = parse_index_id(&out.index_id).unwrap();
    let payload_start = parsed.offset_data as usize + 20;
    files.data[payload_start] ^= 0x55;
    match fetch(
        out.stack_id,
        &files.data[0..16],
        &files.data[parsed.offset_data as usize..],
        parsed.cookie,
        true,
    ) {
        Err(ErrorKind::CrcMismatch(_)) => {},
        other => panic!("wrong result: {:?}", other.map(|v| v.len())),
    }
    let unchecked = fetch(
        out.stack_id,
        &files.data[0..16],
        &files.data[parsed.offset_data as usize..],
        parsed.cookie,
        false,
    )
    .unwrap();
    assert_eq!(unchecked[0], 9 ^ 0x55);
}

// Close is idempotent: the first close names the open stack, every later
// close returns nothing and changes nothing.
#[test]
fn close_is_idempotent() {
    let mut w = StackWriter::new(String::from("bs8/"));
    let mut alloc = AllocationState::new(1);
    let mut stacks: HashMap<u64, Files> = HashMap::new();
    let out = put_one(&mut w, &mut alloc, &mut stacks, vec![1; 8], String::from("x"), None);
    assert_eq!(w.close(), Some(out.stack_id));
    assert_eq!(w.close(), None);
    assert_eq!(w.close(), None);
    assert_eq!(w.current_stack(), None);
}

// Walking a stack: the meta and data iterators yield the records in the
// index file's order, with pairwise-matching cookies and the original bytes.
#[test]
fn iterators_walk_in_ordinal_order() {
    let mut w = StackWriter::new(String::from("bs9/"));
    let mut alloc = AllocationState::new(1);
    let mut stacks: HashMap<u64, Files> = HashMap::new();
    let mut payloads: Vec<Vec<u8>> = Vec::new();
    for i in 0..5u8 {
        let payload = vec![i; (i as usize + 1) * 100];
        payloads.push(payload.clone());
        put_one(&mut w, &mut alloc, &mut stacks, payload, format!("file-{}", i), Some(vec![i]));
    }
    let (sid, files) = stacks.iter().next().unwrap();
    let records = list_stack(*sid, &files.index[0..16], &files.index[16..]).unwrap();
    let magic_line_len = bytestack::meta::MetaMagicHeader::new(*sid).size();

    let mut meta_pos = magic_line_len;
    let mut data_pos = 4096usize;
    let mut it = StackMetaIter::new(records.clone_records());
    let mut walked = 0usize;
    while let Some(n) = it.next_meta_size() {
        let meta_bytes = &files.meta[meta_pos..meta_pos + n as usize];
        let (ir, mr) = it.feed(meta_bytes).unwrap();
        assert_eq!(ir.cookie, mr.cookie);
        assert_eq!(mr.filename, format!("file-{}", walked));
        meta_pos += n as usize;
        walked += 1;
    }
    assert_eq!(walked, 5);

    let mut it = StackDataIter::new(records.clone_records());
    meta_pos = magic_line_len;
    let mut walked = 0usize;
    while let Some(n) = it.next_meta_size() {
        let d = it.next_data_size().unwrap() as usize;
        let meta_bytes = &files.meta[meta_pos..meta_pos + n as usize];
        let data_bytes = &files.data[data_pos..data_pos + d];
        let (ir, mr, payload) = it.feed(meta_bytes, data_bytes).unwrap();
        assert_eq!(ir.cookie, mr.cookie);
        assert_eq!(payload, payloads[walked]);
        meta_pos += n as usize;
        data_pos += d;
        walked += 1;
    }
    assert_eq!(walked, 5);
}

/// Clone a record listing (IndexRecord intentionally has no Clone).
trait CloneRecords {
    fn clone_records(&self) -> Self;
}

impl CloneRecords for Vec<bytestack::index::IndexRecord> {
    fn clone_records(&self) -> Self {
        self.iter()
            .map(|r| {
                bytestack::index::IndexRecord::new(
                    r.cookie,
                    r.offset_data,
                    r.size_data,
                    r.offset_meta,
                    r.size_meta,
                )
            })
            .collect()
    }
}

//! The stack reader: list stacks under a prefix, list the records of one
//! stack, fetch one record by its index identifier, and walk a stack
//! sequentially.
//!
//! The reader computes on bytes; it performs no I/O. The caller hands each
//! function the ranged reads the fetch protocol prescribes: the 16-byte
//! magic header, the index body, the bytes at a record's offset.

use vstd::prelude::*;
use vstd::slice::slice_subrange;
use vstd::string::{StringExecFns, StringSliceAdditionalSpecFns};
use vstd::utf8::{decode_utf8, encode_utf8, valid_utf8};
use crate::data::{
    spec_decode_data_magic, spec_decode_record_header, DataRecordHeader, DATA_HEADER_MAGIC,
    DATA_RECORD_HEADER_MAGIC_END, DATA_RECORD_HEADER_MAGIC_START,
};
use crate::errors::{CustomError, ErrorKind};
use crate::index::{spec_decode_index_magic, IndexMagicHeader, IndexRecord, INDEX_HEADER_MAGIC};
use crate::meta::{spec_parse_meta, MetaRecord};
use crate::outside::crc32c;
use crate::outside::crc32c_of;
use crate::paths::{spec_ext_idx, spec_parse_file_stack_id, parse_index_stack_id};

verus! {

/// A stack identifier with the index file's last-modified time, in
/// milliseconds since the Unix epoch.
pub struct StackIDWithTime {
    /// The stack.
    pub stack_id: u64,
    /// Last-modified time of its index file.
    pub last_modified_millis: i64,
}

/// Summary of one stack under a prefix.
pub struct Stack {
    /// The stack.
    pub stack_id: u64,
    /// Last-modified time of its index file, milliseconds since the epoch.
    pub last_modified_millis: i64,
    /// Sum of the payload lengths of all its records.
    pub full_size: u64,
}

/// One listing entry of the object store, as plain values.
pub struct StoreEntry {
    /// Bare object name, without the prefix.
    pub name: String,
    /// Whether the entry is a file (rather than a directory).
    pub is_file: bool,
    /// Last-modified time, milliseconds since the epoch.
    pub last_modified_millis: i64,
}

/// The stack identifiers named by a listing: every file entry whose name
/// matches `0x{id:04x}.idx`, in listing order.
pub open spec fn spec_list_ids(entries: Seq<StoreEntry>) -> Seq<u64>
    decreases entries.len(),
{
    if entries.len() == 0 {
        Seq::empty()
    } else {
        spec_list_ids(entries.drop_last()) + spec_entry_id(entries.last())
    }
}

/// The contribution of one entry to a listing.
pub open spec fn spec_entry_id(e: StoreEntry) -> Seq<u64> {
    if e.is_file && spec_parse_file_stack_id(encode_utf8(e.name@), spec_ext_idx()) is Some {
        seq![spec_parse_file_stack_id(encode_utf8(e.name@), spec_ext_idx())->Some_0]
    } else {
        Seq::empty()
    }
}

/// Keep the stacks named by a listing: every file entry named like an index
/// file, in order.
#[verifier::loop_isolation(false)]
pub fn list_stack_ids(entries: &Vec<StoreEntry>) -> (r: Vec<u64>)
    ensures
        r@ == spec_list_ids(entries@),
{
    let mut out: Vec<u64> = Vec::new();
    let mut i: usize = 0;
    while i < entries.len()
        invariant
            0 <= i <= entries@.len(),
            out@ == spec_list_ids(entries@.take(i as int)),
        decreases entries@.len() - i,
    {
        let e = &entries[i];
        if e.is_file {
            match parse_index_stack_id(e.name.as_str()) {
                Some(sid) => {
                    out.push(sid);
                },
                None => {},
            }
        }
        i = i + 1;
        proof {
            assert(entries@.take(i as int).drop_last() =~= entries@.take(i as int - 1));
            assert(entries@.take(i as int).last() == entries@[i as int - 1]);
        }
    }
    proof {
        assert(entries@.take(entries@.len() as int) =~= entries@);
    }
    out
}

/// The index records denoted by an index file body of whole 28-byte chunks.
pub open spec fn spec_index_records_of(b: Seq<u8>) -> Seq<IndexRecord> {
    Seq::new((b.len() / 28) as nat, |i: int| spec_decode_index_record_at(b, i))
}

/// The record in chunk `i` of an index file body.
pub open spec fn spec_decode_index_record_at(b: Seq<u8>, i: int) -> IndexRecord {
    crate::index::spec_decode_index_record(b.subrange(28 * i, 28 * i + 28))
}

/// What listing one stack yields, `None` standing for the refusals the exec
/// function maps to error kinds: a short header read, a magic or stack
/// mismatch, or a body that is no whole number of records.
pub open spec fn spec_list_stack(stack_id: u64, header: Seq<u8>, body: Seq<u8>) -> Option<
    Seq<IndexRecord>,
> {
    if header.len() == 16 && spec_decode_index_magic(header).index_header_magic
        == INDEX_HEADER_MAGIC && spec_decode_index_magic(header).stack_id == stack_id
        && body.len() % 28 == 0 {
        Some(spec_index_records_of(body))
    } else {
        None
    }
}

/// List the records of one stack from its index file: `header` is the ranged
/// read of bytes `[0, 16)`, `body` the rest. The magic is validated before
/// the body is looked at; a wrong magic or a misrouted stack identifier is
/// `MagicMismatch`, a malformed length is `IOError`.
#[verifier::loop_isolation(false)]
pub fn list_stack(stack_id: u64, header: &[u8], body: &[u8]) -> (r: Result<
    Vec<IndexRecord>,
    ErrorKind,
>)
    ensures
        match r {
            Ok(v) => spec_list_stack(stack_id, header@, body@) == Some(v@),
            Err(e) => spec_list_stack(stack_id, header@, body@) is None,
        },
        header@.len() != 16 ==> (r matches Err(e) && e is IOError),
        header@.len() == 16 && (spec_decode_index_magic(header@).index_header_magic
            != INDEX_HEADER_MAGIC || spec_decode_index_magic(header@).stack_id != stack_id) ==> (r
            matches Err(e) && e is MagicMismatch),
        header@.len() == 16 && spec_decode_index_magic(header@).index_header_magic
            == INDEX_HEADER_MAGIC && spec_decode_index_magic(header@).stack_id == stack_id
            && body@.len() % 28 != 0 ==> (r matches Err(e) && e is IOError),
{
    let imh = match IndexMagicHeader::new_from_bytes(header) {
        Ok(h) => h,
        Err(_) => {
            return Err(ErrorKind::IOError(CustomError::new(String::from_str(
                "index magic header needs 16 bytes",
            ))));
        },
    };
    if !imh.valid() {
        return Err(ErrorKind::MagicMismatch(CustomError::new(String::from_str(
            "header magic mismatch",
        ))));
    }
    if imh.stack_id != stack_id {
        return Err(ErrorKind::MagicMismatch(CustomError::new(String::from_str(
            "stack_id mismatch",
        ))));
    }
    if body.len() % 28 != 0 {
        return Err(ErrorKind::IOError(CustomError::new(String::from_str(
            "index body is no whole number of records",
        ))));
    }
    let n = body.len() / 28;
    let mut out: Vec<IndexRecord> = Vec::new();
    let mut i: usize = 0;
    while i < n
        invariant
            0 <= i <= n,
            n == body@.len() / 28,
            body@.len() % 28 == 0,
            out@.len() == i,
            forall|j: int| 0 <= j < i ==> out@[j] == spec_decode_index_record_at(body@, j),
        decreases n - i,
    {
        proof {
            assert(28 * (i as int) + 28 <= body@.len()) by (nonlinear_arith)
                requires
                    i < n,
                    n == body@.len() / 28,
                    body@.len() % 28 == 0,
                    body@.len() >= 0;
        }
        let chunk = slice_subrange(body, 28 * i, 28 * i + 28);
        match IndexRecord::new_from_bytes(chunk) {
            Ok(rec) => {
                out.push(rec);
            },
            Err(_) => {
                proof {
                    assert(false);
                }
            },
        }
        i = i + 1;
    }
    proof {
        assert(out@ =~= spec_index_records_of(body@));
    }
    Ok(out)
}

/// What fetching yields, `None` standing for the refusals the exec function
/// maps to error kinds.
pub open spec fn spec_fetch(
    stack_id: u64,
    magic: Seq<u8>,
    record: Seq<u8>,
    cookie: u32,
    check_crc: bool,
) -> Option<Seq<u8>> {
    if magic.len() == 16 && spec_decode_data_magic(magic).data_magic_number == DATA_HEADER_MAGIC
        && spec_decode_data_magic(magic).stack_id == stack_id && record.len() >= 20 && {
        let hdr = spec_decode_record_header(record.subrange(0, 20));
        &&& hdr.data_magic_record_start == DATA_RECORD_HEADER_MAGIC_START
        &&& hdr.data_magic_record_end == DATA_RECORD_HEADER_MAGIC_END
        &&& hdr.cookie == cookie
        &&& record.len() >= 20 + hdr.size
        &&& (check_crc ==> crc32c_of(record.subrange(20, 20 + hdr.size as int)) == hdr.crc)
    } {
        let hdr = spec_decode_record_header(record.subrange(0, 20));
        Some(record.subrange(20, 20 + hdr.size as int))
    } else {
        None
    }
}

/// Fetch one record's payload: `magic` is the ranged read of bytes `[0, 16)`
/// of the data file, `record` the ranged read from the identifier's offset
/// (at least the 20-byte header and the payload it announces). A failed file
/// or record magic is `MagicMismatch`; a wrong cookie is `InvalidArgument`
/// with the message `cookie mismatched`; short reads are `IOError`; a CRC
/// disagreement under `check_crc` is `CrcMismatch`.
pub fn fetch(stack_id: u64, magic: &[u8], record: &[u8], cookie: u32, check_crc: bool) -> (r:
    Result<Vec<u8>, ErrorKind>)
    ensures
        match r {
            Ok(v) => spec_fetch(stack_id, magic@, record@, cookie, check_crc) == Some(v@),
            Err(e) => spec_fetch(stack_id, magic@, record@, cookie, check_crc) is None,
        },
        magic@.len() != 16 ==> (r matches Err(e) && e is IOError),
        magic@.len() == 16 && (spec_decode_data_magic(magic@).data_magic_number
            != DATA_HEADER_MAGIC || spec_decode_data_magic(magic@).stack_id != stack_id) ==> (r
            matches Err(e) && e is MagicMismatch),
        spec_fetch_file_ok(stack_id, magic@) && record@.len() < 20 ==> (r matches Err(e) && e
            is IOError),
        spec_fetch_file_ok(stack_id, magic@) && record@.len() >= 20 && {
            let hdr = spec_decode_record_header(record@.subrange(0, 20));
            hdr.data_magic_record_start != DATA_RECORD_HEADER_MAGIC_START
                || hdr.data_magic_record_end != DATA_RECORD_HEADER_MAGIC_END
        } ==> (r matches Err(e) && e is MagicMismatch),
        spec_fetch_file_ok(stack_id, magic@) && record@.len() >= 20 && {
            let hdr = spec_decode_record_header(record@.subrange(0, 20));
            hdr.data_magic_record_start == DATA_RECORD_HEADER_MAGIC_START
                && hdr.data_magic_record_end == DATA_RECORD_HEADER_MAGIC_END && hdr.cookie
                != cookie
        } ==> (r matches Err(e) && e is InvalidArgument && e.spec_message()
            == "cookie mismatched"@),
        spec_fetch_record_ok(stack_id, magic@, record@, cookie) && check_crc && {
            let hdr = spec_decode_record_header(record@.subrange(0, 20));
            crc32c_of(record@.subrange(20, 20 + hdr.size as int)) != hdr.crc
        } ==> (r matches Err(e) && e is CrcMismatch),
{
    let dmh = match crate::data::DataMagicHeader::new_from_bytes(magic) {
        Ok(h) => h,
        Err(_) => {
            return Err(ErrorKind::IOError(CustomError::new(String::from_str(
                "data magic header needs 16 bytes",
            ))));
        },
    };
    if !dmh.valid() || dmh.stack_id != stack_id {
        return Err(ErrorKind::MagicMismatch(CustomError::new(String::from_str(
            "data file magic mismatch",
        ))));
    }
    if record.len() < 20 {
        return Err(ErrorKind::IOError(CustomError::new(String::from_str(
            "short read of a data record header",
        ))));
    }
    let drh = match DataRecordHeader::new_from_bytes(slice_subrange(record, 0, 20)) {
        Ok(h) => h,
        Err(_) => {
            proof {
                assert(false);
            }
            return Err(ErrorKind::IOError(CustomError::new(String::new())));
        },
    };
    if !drh.validate_magic() {
        return Err(ErrorKind::MagicMismatch(CustomError::new(String::from_str(
            "invalid data record header",
        ))));
    }
    if drh.cookie != cookie {
        return Err(ErrorKind::InvalidArgument(CustomError::new(String::from_str(
            "cookie mismatched",
        ))));
    }
    if record.len() - 20 < drh.size as usize {
        return Err(ErrorKind::IOError(CustomError::new(String::from_str(
            "short read of a data record payload",
        ))));
    }
    let payload = vstd::slice::slice_to_vec(
        slice_subrange(record, 20, 20 + drh.size as usize),
    );
    if check_crc {
        let sum = crc32c(&payload);
        if sum != drh.crc {
            return Err(ErrorKind::CrcMismatch(CustomError::new(String::from_str(
                "crc mismatch",
            ))));
        }
    }
    Ok(payload)
}

/// Whether the data file's magic header admits the fetch.
pub open spec fn spec_fetch_file_ok(stack_id: u64, magic: Seq<u8>) -> bool {
    magic.len() == 16 && spec_decode_data_magic(magic).data_magic_number == DATA_HEADER_MAGIC
        && spec_decode_data_magic(magic).stack_id == stack_id
}

/// Whether the record bytes pass every check before the CRC.
pub open spec fn spec_fetch_record_ok(
    stack_id: u64,
    magic: Seq<u8>,
    record: Seq<u8>,
    cookie: u32,
) -> bool {
    spec_fetch_file_ok(stack_id, magic) && record.len() >= 20 && {
        let hdr = spec_decode_record_header(record.subrange(0, 20));
        &&& hdr.data_magic_record_start == DATA_RECORD_HEADER_MAGIC_START
        &&& hdr.data_magic_record_end == DATA_RECORD_HEADER_MAGIC_END
        &&& hdr.cookie == cookie
        &&& record.len() >= 20 + hdr.size
    }
}

/// Sum of the payload sizes of a record listing.
pub open spec fn spec_sum_sizes(recs: Seq<IndexRecord>) -> nat
    decreases recs.len(),
{
    if recs.len() == 0 {
        0
    } else {
        spec_sum_sizes(recs.drop_last()) + recs.last().size_data as nat
    }
}

/// The `full_size` of a stack: the sum of `size_data` over its records
/// (payload bytes; padding not included).
#[verifier::loop_isolation(false)]
pub fn full_size(records: &Vec<IndexRecord>) -> (r: u64)
    requires
        records@.len() <= 0x100000000,
    ensures
        r == spec_sum_sizes(records@),
{
    let mut sum: u64 = 0;
    let mut i: usize = 0;
    while i < records.len()
        invariant
            0 <= i <= records@.len(),
            sum as nat == spec_sum_sizes(records@.take(i as int)),
            sum <= (i as nat) * 0xffffffff,
        decreases records@.len() - i,
    {
        proof {
            assert(records@.take(i as int + 1).drop_last() =~= records@.take(i as int));
            assert((i as nat) * 0xffffffff + 0xffffffff == (i as nat + 1) * 0xffffffff)
                by (nonlinear_arith);
            assert((i as nat + 1) * 0xffffffff <= 0x100000000 * 0xffffffff)
                by (nonlinear_arith)
                requires i as nat + 1 <= 0x100000000;
        }
        sum = sum + records[i].size_data as u64;
        i = i + 1;
    }
    proof {
        assert(records@.take(records@.len() as int) =~= records@);
    }
    sum
}

/// A forward-only walk over one stack's index and meta files. The caller
/// reads `size_meta` bytes from the meta stream for each step and hands them
/// to `feed`.
pub struct StackMetaIter {
    /// The stack's index records, in ordinal order.
    pub irs: Vec<IndexRecord>,
    /// Number of records already yielded.
    pub pos: usize,
}

impl StackMetaIter {
    /// A walk over the given records, positioned at the first.
    pub fn new(irs: Vec<IndexRecord>) -> (r: Self)
        ensures
            r.irs == irs,
            r.pos == 0,
    {
        StackMetaIter { irs, pos: 0 }
    }

    /// How many meta bytes the next step needs; `None` when the walk is done.
    pub fn next_meta_size(&self) -> (r: Option<u32>)
        ensures
            match r {
                Some(n) => self.pos < self.irs@.len() && n == self.irs@[self.pos as int].size_meta,
                None => self.pos >= self.irs@.len(),
            },
    {
        if self.pos < self.irs.len() {
            Some(self.irs[self.pos].size_meta)
        } else {
            None
        }
    }

    /// Decode the next record's meta line and step forward. On an
    /// undecodable line the walk does not advance.
    pub fn feed(&mut self, meta_bytes: &[u8]) -> (r: Result<(IndexRecord, MetaRecord), ErrorKind>)
        requires
            old(self).pos < old(self).irs@.len(),
        ensures
            final(self).irs == old(self).irs,
            match r {
                Ok(t) => {
                    &&& final(self).pos == old(self).pos + 1
                    &&& t.0 == old(self).irs@[old(self).pos as int]
                    &&& spec_parse_meta(meta_bytes@) matches Some(m)
                    &&& t.1.create_time == m.0 && t.1.offset_data == m.1 && t.1.size_data == m.2
                        && t.1.cookie == m.3 && valid_utf8(m.4) && t.1.filename@ == decode_utf8(
                        m.4,
                    ) && t.1.extra@ == m.5
                },
                Err(e) => *final(self) == *old(self) && e is IOError && (spec_parse_meta(
                    meta_bytes@,
                ) is None || (spec_parse_meta(meta_bytes@) matches Some(m) && !valid_utf8(m.4))),
            },
    {
        let mr = match MetaRecord::new_from_bytes(meta_bytes) {
            Ok(m) => m,
            Err(_) => {
                return Err(ErrorKind::IOError(CustomError::new(String::from_str(
                    "meta record did not decode",
                ))));
            },
        };
        let ir = IndexRecord::new(
            self.irs[self.pos].cookie,
            self.irs[self.pos].offset_data,
            self.irs[self.pos].size_data,
            self.irs[self.pos].offset_meta,
            self.irs[self.pos].size_meta,
        );
        let n = self.irs.len();
        assert(self.pos < n);
        self.pos = self.pos + 1;
        Ok((ir, mr))
    }
}

/// A forward-only walk over one stack's index, meta and data files. For each
/// step the caller reads `size_meta` meta bytes and the padded data chunk and
/// hands both to `feed`.
pub struct StackDataIter {
    /// The stack's index records, in ordinal order.
    pub irs: Vec<IndexRecord>,
    /// Number of records already yielded.
    pub pos: usize,
}

impl StackDataIter {
    /// A walk over the given records, positioned at the first.
    pub fn new(irs: Vec<IndexRecord>) -> (r: Self)
        ensures
            r.irs == irs,
            r.pos == 0,
    {
        StackDataIter { irs, pos: 0 }
    }

    /// How many meta bytes the next step needs; `None` when the walk is done.
    pub fn next_meta_size(&self) -> (r: Option<u32>)
        ensures
            match r {
                Some(n) => self.pos < self.irs@.len() && n == self.irs@[self.pos as int].size_meta,
                None => self.pos >= self.irs@.len(),
            },
    {
        if self.pos < self.irs.len() {
            Some(self.irs[self.pos].size_meta)
        } else {
            None
        }
    }

    /// How many data bytes the next step needs — header plus padded payload —
    /// or `None` when the walk is done.
    pub fn next_data_size(&self) -> (r: Option<u64>)
        ensures
            match r {
                Some(n) => self.pos < self.irs@.len() && n == 20
                    + crate::data::spec_padding_data_size(
                    self.irs@[self.pos as int].size_data as nat,
                ),
                None => self.pos >= self.irs@.len(),
            },
    {
        if self.pos < self.irs.len() {
            let size = self.irs[self.pos].size_data as u64;
            let rem = (size + 20) % 4096;
            let padded = if rem == 0 {
                size
            } else {
                size + (4096 - rem)
            };
            proof {
                crate::data::lemma_padding_aligned(size as nat);
            }
            Some(20 + padded)
        } else {
            None
        }
    }

    /// Decode the next record's meta line and data chunk and step forward.
    /// The data chunk is validated against the record header's sentinels and
    /// sliced to the index record's payload length. The step succeeds exactly
    /// where the meta line is canonical with a UTF-8 filename and the data
    /// chunk holds a well-delimited header plus the record's payload; on
    /// failure the walk does not advance.
    pub fn feed(&mut self, meta_bytes: &[u8], data_bytes: &[u8]) -> (r: Result<
        (IndexRecord, MetaRecord, Vec<u8>),
        ErrorKind,
    >)
        requires
            old(self).pos < old(self).irs@.len(),
        ensures
            final(self).irs == old(self).irs,
            r is Ok <==> spec_data_step_ok(
                meta_bytes@,
                data_bytes@,
                old(self).irs@[old(self).pos as int].size_data,
            ),
            match r {
                Ok(t) => {
                    &&& final(self).pos == old(self).pos + 1
                    &&& t.0 == old(self).irs@[old(self).pos as int]
                    &&& spec_parse_meta(meta_bytes@) matches Some(m)
                    &&& t.1.create_time == m.0 && t.1.offset_data == m.1 && t.1.size_data == m.2
                        && t.1.cookie == m.3 && valid_utf8(m.4) && t.1.filename@ == decode_utf8(
                        m.4,
                    ) && t.1.extra@ == m.5
                    &&& data_bytes@.len() >= 20 + t.0.size_data
                    &&& {
                        let hdr = spec_decode_record_header(data_bytes@.subrange(0, 20));
                        hdr.data_magic_record_start == DATA_RECORD_HEADER_MAGIC_START
                            && hdr.data_magic_record_end == DATA_RECORD_HEADER_MAGIC_END
                    }
                    &&& t.2@ == data_bytes@.subrange(20, 20 + t.0.size_data as int)
                },
                Err(e) => *final(self) == *old(self),
            },
            !spec_meta_line_ok(meta_bytes@) ==> (r matches Err(e) && e is IOError),
            spec_meta_line_ok(meta_bytes@) && data_bytes@.len() < 20 ==> (r matches Err(e) && e
                is IOError),
            spec_meta_line_ok(meta_bytes@) && data_bytes@.len() >= 20 && {
                let hdr = spec_decode_record_header(data_bytes@.subrange(0, 20));
                hdr.data_magic_record_start != DATA_RECORD_HEADER_MAGIC_START
                    || hdr.data_magic_record_end != DATA_RECORD_HEADER_MAGIC_END
            } ==> (r matches Err(e) && e is MagicMismatch),
            spec_meta_line_ok(meta_bytes@) && data_bytes@.len() >= 20 && {
                let hdr = spec_decode_record_header(data_bytes@.subrange(0, 20));
                hdr.data_magic_record_start == DATA_RECORD_HEADER_MAGIC_START
                    && hdr.data_magic_record_end == DATA_RECORD_HEADER_MAGIC_END
            } && data_bytes@.len() < 20 + old(self).irs@[old(self).pos as int].size_data ==> (r
                matches Err(e) && e is IOError),
    {
        let mr = match MetaRecord::new_from_bytes(meta_bytes) {
            Ok(m) => m,
            Err(_) => {
                return Err(ErrorKind::IOError(CustomError::new(String::from_str(
                    "meta record did not decode",
                ))));
            },
        };
        if data_bytes.len() < 20 {
            return Err(ErrorKind::IOError(CustomError::new(String::from_str(
                "short read of a data record header",
            ))));
        }
        let drh = match DataRecordHeader::new_from_bytes(slice_subrange(data_bytes, 0, 20)) {
            Ok(h) => h,
            Err(_) => {
                proof {
                    assert(false);
                }
                return Err(ErrorKind::IOError(CustomError::new(String::new())));
            },
        };
        if !drh.validate_magic() {
            return Err(ErrorKind::MagicMismatch(CustomError::new(String::from_str(
                "invalid data record header",
            ))));
        }
        let size = self.irs[self.pos].size_data as usize;
        if data_bytes.len() - 20 < size {
            return Err(ErrorKind::IOError(CustomError::new(String::from_str(
                "short read of a data record payload",
            ))));
        }
        let payload = vstd::slice::slice_to_vec(slice_subrange(data_bytes, 20, 20 + size));
        let ir = IndexRecord::new(
            self.irs[self.pos].cookie,
            self.irs[self.pos].offset_data,
            self.irs[self.pos].size_data,
            self.irs[self.pos].offset_meta,
            self.irs[self.pos].size_meta,
        );
        let n = self.irs.len();
        assert(self.pos < n);
        self.pos = self.pos + 1;
        Ok((ir, mr, payload))
    }
}

/// Whether a meta line decodes: canonical grammar with a UTF-8 filename.
pub open spec fn spec_meta_line_ok(meta: Seq<u8>) -> bool {
    match spec_parse_meta(meta) {
        Some(m) => valid_utf8(m.4),
        None => false,
    }
}

/// Whether one data-walk step succeeds: the meta line decodes and the data
/// chunk holds a header with both sentinels plus at least `size_data`
/// payload bytes.
pub open spec fn spec_data_step_ok(meta: Seq<u8>, data: Seq<u8>, size_data: u32) -> bool {
    &&& spec_meta_line_ok(meta)
    &&& data.len() >= 20
    &&& {
        let hdr = spec_decode_record_header(data.subrange(0, 20));
        hdr.data_magic_record_start == DATA_RECORD_HEADER_MAGIC_START
            && hdr.data_magic_record_end == DATA_RECORD_HEADER_MAGIC_END
    }
    &&& data.len() >= 20 + size_data
}

} // verus!

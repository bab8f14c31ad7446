//! The data file: its magic header and the layout of one data record.
//!
//! A data record is a 20-byte header, the payload, and zero padding chosen so
//! that the whole record is a multiple of 4096 bytes. The file reserves its
//! first 4096 bytes for the magic header, so every record starts on a
//! 4096-byte boundary.

use vstd::prelude::*;
use vstd::bytes::{
    spec_u32_from_le_bytes, spec_u32_to_le_bytes, spec_u64_from_le_bytes, spec_u64_to_le_bytes,
    u32_from_le_bytes, u32_to_le_bytes, u64_from_le_bytes, u64_to_le_bytes,
    lemma_auto_spec_u32_to_from_le_bytes, lemma_auto_spec_u64_to_from_le_bytes,
};
use vstd::slice::slice_subrange;
use vstd::string::StringExecFns;
use crate::errors::{CustomError, DecodeError};

verus! {

/// Records are padded so that each starts on this boundary.
pub const ALIGNMENT_SIZE: usize = 4096;

/// Magic number of the data file header; a nod to the GIF file header.
pub const DATA_HEADER_MAGIC: u64 = 47494638;

/// Sentinel opening every data record header.
pub const DATA_RECORD_HEADER_MAGIC_START: u32 = 257758;

/// Sentinel closing every data record header.
pub const DATA_RECORD_HEADER_MAGIC_END: u32 = 857752;

/// The 16-byte header at the start of every data file: the data magic number
/// and the owning stack identifier, both little-endian.
#[derive(Debug)]
pub struct DataMagicHeader {
    /// Holds DATA_HEADER_MAGIC in every well-formed file.
    pub data_magic_number: u64,
    /// The stack this file belongs to.
    pub stack_id: u64,
}

/// The bytes of a data magic header.
pub open spec fn spec_encode_data_magic(h: DataMagicHeader) -> Seq<u8> {
    spec_u64_to_le_bytes(h.data_magic_number) + spec_u64_to_le_bytes(h.stack_id)
}

/// The data magic header denoted by 16 bytes.
pub open spec fn spec_decode_data_magic(b: Seq<u8>) -> DataMagicHeader
    recommends
        b.len() == 16,
{
    DataMagicHeader {
        data_magic_number: spec_u64_from_le_bytes(b.subrange(0, 8)),
        stack_id: spec_u64_from_le_bytes(b.subrange(8, 16)),
    }
}

impl DataMagicHeader {
    /// A data magic header for the given stack.
    pub fn new(stack_id: u64) -> (r: Self)
        ensures
            r.data_magic_number == DATA_HEADER_MAGIC,
            r.stack_id == stack_id,
    {
        DataMagicHeader { data_magic_number: DATA_HEADER_MAGIC, stack_id }
    }

    /// Size of the encoded header.
    pub fn size() -> (r: usize)
        ensures
            r == 16,
    {
        16
    }

    /// Whether the magic number is the data magic.
    pub fn valid(&self) -> (r: bool)
        ensures
            r == (self.data_magic_number == DATA_HEADER_MAGIC),
    {
        self.data_magic_number == DATA_HEADER_MAGIC
    }

    /// Encode to the 16-byte wire form.
    pub fn encode(&self) -> (r: Vec<u8>)
        ensures
            r@ == spec_encode_data_magic(*self),
            r@.len() == 16,
    {
        proof {
            lemma_auto_spec_u64_to_from_le_bytes();
        }
        let mut out = u64_to_le_bytes(self.data_magic_number);
        let mut tail = u64_to_le_bytes(self.stack_id);
        out.append(&mut tail);
        out
    }

    /// Decode from exactly 16 bytes.
    pub fn new_from_bytes(b: &[u8]) -> (r: Result<Self, DecodeError>)
        ensures
            match r {
                Ok(h) => b@.len() == 16 && h == spec_decode_data_magic(b@),
                Err(e) => b@.len() != 16 && e is ShortRead,
            },
    {
        if b.len() != 16 {
            return Err(DecodeError::ShortRead(CustomError::new(String::from_str(
                "data magic header needs 16 bytes",
            ))));
        }
        let magic = u64_from_le_bytes(slice_subrange(b, 0, 8));
        let stack_id = u64_from_le_bytes(slice_subrange(b, 8, 16));
        Ok(DataMagicHeader { data_magic_number: magic, stack_id })
    }
}

/// Encoding a data magic header and reading it back gives the header.
pub proof fn lemma_data_magic_roundtrip(h: DataMagicHeader)
    ensures
        spec_encode_data_magic(h).len() == 16,
        spec_decode_data_magic(spec_encode_data_magic(h)) == h,
{
    lemma_auto_spec_u64_to_from_le_bytes();
    let e = spec_encode_data_magic(h);
    assert(e.subrange(0, 8) =~= spec_u64_to_le_bytes(h.data_magic_number));
    assert(e.subrange(8, 16) =~= spec_u64_to_le_bytes(h.stack_id));
}

/// Length of the payload-plus-padding region for a payload of `data_size`
/// bytes: the least extension making the 20-byte header plus the region a
/// multiple of 4096.
pub open spec fn spec_padding_data_size(data_size: nat) -> nat {
    data_size + spec_pad_of(data_size)
}

/// Number of zero padding bytes appended after a payload of `data_size`.
pub open spec fn spec_pad_of(data_size: nat) -> nat {
    ((4096 - (data_size + 20) % 4096) % 4096) as nat
}

/// The padded region plus the header is a multiple of the alignment.
pub proof fn lemma_padding_aligned(data_size: nat)
    ensures
        (spec_padding_data_size(data_size) + 20) % 4096 == 0,
        spec_pad_of(data_size) < 4096,
{
    let t = (data_size + 20) as int;
    let r = t % 4096;
    vstd::arithmetic::div_mod::lemma_fundamental_div_mod(t, 4096);
    if r == 0 {
        vstd::arithmetic::div_mod::lemma_mod_multiples_basic(t / 4096, 4096);
    } else {
        assert(t + (4096 - r) == 4096 * (t / 4096 + 1));
        vstd::arithmetic::div_mod::lemma_mod_multiples_basic(t / 4096 + 1, 4096);
    }
}

/// Two boundary cases of the padding rule: a payload whose length plus the
/// 20-byte header is already a multiple of 4096 gets no padding, and an
/// empty payload makes the record occupy exactly one 4096-byte block
/// (20-byte header plus 4076 zeros).
pub proof fn lemma_padding_cases(data_size: nat)
    ensures
        (data_size + 20) % 4096 == 0 ==> spec_pad_of(data_size) == 0,
        data_size == 0 ==> spec_pad_of(data_size) == 4076 && 20 + spec_padding_data_size(0)
            == 4096,
{
}

/// The padded-region length for a payload of `data_size` bytes
/// (`data_size` itself when header plus payload is already aligned).
pub fn padding_data_size(data_size: usize) -> (r: usize)
    requires
        data_size <= usize::MAX - 4096,
    ensures
        r == spec_padding_data_size(data_size as nat),
        (r + 20) % 4096 == 0,
        data_size <= r < data_size + 4096,
{
    proof {
        lemma_padding_aligned(data_size as nat);
    }
    let rem: usize = (data_size + 20) % ALIGNMENT_SIZE;
    if rem == 0 {
        data_size
    } else {
        data_size + (ALIGNMENT_SIZE - rem)
    }
}

/// The 20-byte header opening every data record:
/// `| magic_start: u32 | cookie: u32 | size: u32 | crc: u32 | magic_end: u32 |`,
/// all little-endian.
#[derive(Debug)]
pub struct DataRecordHeader {
    /// Holds DATA_RECORD_HEADER_MAGIC_START in every well-formed record.
    pub data_magic_record_start: u32,
    /// The random per-record cookie, echoed by the index and meta records.
    pub cookie: u32,
    /// Payload length in bytes.
    pub size: u32,
    /// CRC-32C of the payload.
    pub crc: u32,
    /// Holds DATA_RECORD_HEADER_MAGIC_END in every well-formed record.
    pub data_magic_record_end: u32,
}

impl PartialEq for DataRecordHeader {
    /// Two headers agree when cookie, size and checksum agree.
    fn eq(&self, other: &DataRecordHeader) -> bool {
        self.cookie == other.cookie && self.size == other.size && self.crc == other.crc
    }
}

impl vstd::std_specs::cmp::PartialEqSpecImpl for DataRecordHeader {
    open spec fn obeys_eq_spec() -> bool {
        true
    }

    open spec fn eq_spec(&self, other: &DataRecordHeader) -> bool {
        self.cookie == other.cookie && self.size == other.size && self.crc == other.crc
    }
}

/// The header a write constructs: both sentinels in place.
pub open spec fn spec_new_record_header(cookie: u32, size: u32, crc: u32) -> DataRecordHeader {
    DataRecordHeader {
        data_magic_record_start: DATA_RECORD_HEADER_MAGIC_START,
        cookie,
        size,
        crc,
        data_magic_record_end: DATA_RECORD_HEADER_MAGIC_END,
    }
}

/// The bytes of a data record header.
pub open spec fn spec_encode_record_header(h: DataRecordHeader) -> Seq<u8> {
    spec_u32_to_le_bytes(h.data_magic_record_start) + spec_u32_to_le_bytes(h.cookie)
        + spec_u32_to_le_bytes(h.size) + spec_u32_to_le_bytes(h.crc)
        + spec_u32_to_le_bytes(h.data_magic_record_end)
}

/// The data record header denoted by 20 bytes.
pub open spec fn spec_decode_record_header(b: Seq<u8>) -> DataRecordHeader
    recommends
        b.len() == 20,
{
    DataRecordHeader {
        data_magic_record_start: spec_u32_from_le_bytes(b.subrange(0, 4)),
        cookie: spec_u32_from_le_bytes(b.subrange(4, 8)),
        size: spec_u32_from_le_bytes(b.subrange(8, 12)),
        crc: spec_u32_from_le_bytes(b.subrange(12, 16)),
        data_magic_record_end: spec_u32_from_le_bytes(b.subrange(16, 20)),
    }
}

/// Encoding a header and reading it back gives the header.
pub proof fn lemma_record_header_roundtrip(h: DataRecordHeader)
    ensures
        spec_encode_record_header(h).len() == 20,
        spec_decode_record_header(spec_encode_record_header(h)) == h,
{
    lemma_auto_spec_u32_to_from_le_bytes();
    let e = spec_encode_record_header(h);
    assert(e.subrange(0, 4) =~= spec_u32_to_le_bytes(h.data_magic_record_start));
    assert(e.subrange(4, 8) =~= spec_u32_to_le_bytes(h.cookie));
    assert(e.subrange(8, 12) =~= spec_u32_to_le_bytes(h.size));
    assert(e.subrange(12, 16) =~= spec_u32_to_le_bytes(h.crc));
    assert(e.subrange(16, 20) =~= spec_u32_to_le_bytes(h.data_magic_record_end));
}

impl DataRecordHeader {
    /// A header for one write: sentinels in place, fields as given.
    pub fn new(cookie: u32, size: u32, crc: u32) -> (r: Self)
        ensures
            r == spec_new_record_header(cookie, size, crc),
    {
        DataRecordHeader {
            data_magic_record_start: DATA_RECORD_HEADER_MAGIC_START,
            cookie,
            size,
            crc,
            data_magic_record_end: DATA_RECORD_HEADER_MAGIC_END,
        }
    }

    /// Whether both sentinels hold their magic values.
    pub fn validate_magic(&self) -> (r: bool)
        ensures
            r == (self.data_magic_record_start == DATA_RECORD_HEADER_MAGIC_START
                && self.data_magic_record_end == DATA_RECORD_HEADER_MAGIC_END),
    {
        self.data_magic_record_start == DATA_RECORD_HEADER_MAGIC_START
            && self.data_magic_record_end == DATA_RECORD_HEADER_MAGIC_END
    }

    /// Size of the encoded header.
    pub fn size() -> (r: usize)
        ensures
            r == 20,
    {
        20
    }

    /// Encode to the 20-byte wire form.
    pub fn encode(&self) -> (r: Vec<u8>)
        ensures
            r@ == spec_encode_record_header(*self),
            r@.len() == 20,
    {
        proof {
            lemma_auto_spec_u32_to_from_le_bytes();
        }
        let mut out = u32_to_le_bytes(self.data_magic_record_start);
        let mut b1 = u32_to_le_bytes(self.cookie);
        out.append(&mut b1);
        let mut b2 = u32_to_le_bytes(self.size);
        out.append(&mut b2);
        let mut b3 = u32_to_le_bytes(self.crc);
        out.append(&mut b3);
        let mut b4 = u32_to_le_bytes(self.data_magic_record_end);
        out.append(&mut b4);
        proof {
            assert(out@ =~= spec_encode_record_header(*self));
        }
        out
    }

    /// Decode from exactly 20 bytes.
    pub fn new_from_bytes(data: &[u8]) -> (r: Result<Self, DecodeError>)
        ensures
            match r {
                Ok(h) => data@.len() == 20 && h == spec_decode_record_header(data@),
                Err(e) => data@.len() != 20 && e is ShortRead,
            },
    {
        if data.len() != 20 {
            return Err(DecodeError::ShortRead(CustomError::new(String::from_str(
                "data record header needs 20 bytes",
            ))));
        }
        Ok(DataRecordHeader {
            data_magic_record_start: u32_from_le_bytes(slice_subrange(data, 0, 4)),
            cookie: u32_from_le_bytes(slice_subrange(data, 4, 8)),
            size: u32_from_le_bytes(slice_subrange(data, 8, 12)),
            crc: u32_from_le_bytes(slice_subrange(data, 12, 16)),
            data_magic_record_end: u32_from_le_bytes(slice_subrange(data, 16, 20)),
        })
    }
}

/// One data record in memory: header, payload, and its zero padding.
#[derive(Debug)]
pub struct DataRecord {
    /// The 20-byte header.
    pub header: DataRecordHeader,
    /// The user payload.
    pub data: Vec<u8>,
    /// All zeros; sized so the whole record is 4096-aligned.
    pub padding: Vec<u8>,
}

impl DataRecord {
    /// A record is well formed when its header size field matches the payload
    /// and the padding is the exact zero run the alignment asks for.
    pub open spec fn wf(&self) -> bool {
        &&& self.data@.len() <= u32::MAX
        &&& self.data@.len() <= usize::MAX - 4120
        &&& self.header.size == self.data@.len()
        &&& self.padding@.len() == spec_pad_of(self.data@.len())
        &&& forall|i: int| 0 <= i < self.padding@.len() ==> self.padding@[i] == 0u8
    }

    /// Build a record from one write: header from the arguments, padding
    /// computed from the payload length.
    pub fn new(cookie: u32, size: u32, crc: u32, data: Vec<u8>) -> (r: Self)
        requires
            data@.len() <= u32::MAX,
            data@.len() <= usize::MAX - 4120,
            size == data@.len(),
        ensures
            r.header == spec_new_record_header(cookie, size, crc),
            r.data == data,
            r.wf(),
    {
        let data_size = data.len();
        let padded = padding_data_size(data_size);
        let padding_size = padded - data_size;
        let zero_padding: Vec<u8> = zero_vec(padding_size);
        DataRecord { header: DataRecordHeader::new(cookie, size, crc), data, padding: zero_padding }
    }

    /// Full record size: always a multiple of 4096 on a well-formed record.
    pub fn size(&self) -> (r: usize)
        requires
            self.wf(),
        ensures
            r == 20 + self.data@.len() + self.padding@.len(),
            r % 4096 == 0,
    {
        proof {
            lemma_padding_aligned(self.data@.len());
        }
        DataRecordHeader::size() + self.data.len() + self.padding.len()
    }

    /// Encode to the wire form: header, payload, padding.
    pub fn encode(&self) -> (r: Vec<u8>)
        requires
            self.wf(),
        ensures
            r@ == spec_encode_record_header(self.header) + self.data@ + self.padding@,
            r@.len() == 20 + spec_padding_data_size(self.data@.len()),
    {
        let mut out = self.header.encode();
        let mut body = clone_bytes(&self.data);
        out.append(&mut body);
        let mut pad = clone_bytes(&self.padding);
        out.append(&mut pad);
        out
    }

    /// Split the wire form back into a record. The bytes must hold the whole
    /// 20-byte header and at least the payload the header announces; whatever
    /// follows the payload is taken as padding.
    pub fn new_from_bytes(data: Vec<u8>) -> (r: Result<DataRecord, DecodeError>)
        ensures
            match r {
                Ok(rec) => {
                    &&& data@.len() >= 20
                    &&& rec.header == spec_decode_record_header(data@.subrange(0, 20))
                    &&& rec.header.size as int <= data@.len() - 20
                    &&& rec.data@ == data@.subrange(20, 20 + rec.header.size as int)
                    &&& rec.padding@ == data@.subrange(20 + rec.header.size as int, data@.len() as int)
                },
                Err(e) => e is ShortRead && (data@.len() < 20 || (data@.len() >= 20
                    && spec_decode_record_header(data@.subrange(0, 20)).size as int > data@.len()
                    - 20)),
            },
    {
        if data.len() < 20 {
            return Err(DecodeError::ShortRead(CustomError::new(String::from_str(
                "data record needs at least its 20 header bytes",
            ))));
        }
        let header = match DataRecordHeader::new_from_bytes(slice_subrange(
            data.as_slice(),
            0,
            20,
        )) {
            Ok(h) => h,
            Err(_) => {
                proof {
                    assert(false);
                }
                return Err(DecodeError::ShortRead(CustomError::new(String::new())));
            },
        };
        let data_size = header.size as usize;
        if data_size > data.len() - 20 {
            return Err(DecodeError::ShortRead(CustomError::new(String::from_str(
                "data record shorter than its header announces",
            ))));
        }
        let body = slice_subrange(data.as_slice(), 20, 20 + data_size);
        let padding = slice_subrange(data.as_slice(), 20 + data_size, data.len());
        Ok(DataRecord {
            header,
            data: vstd::slice::slice_to_vec(body),
            padding: vstd::slice::slice_to_vec(padding),
        })
    }
}

/// A vector of `n` zero bytes.
pub fn zero_vec(n: usize) -> (r: Vec<u8>)
    ensures
        r@.len() == n,
        forall|i: int| 0 <= i < n ==> r@[i] == 0u8,
{
    let mut out: Vec<u8> = Vec::new();
    let mut i: usize = 0;
    while i < n
        invariant
            i <= n,
            out@.len() == i,
            forall|j: int| 0 <= j < i ==> out@[j] == 0u8,
        decreases n - i,
    {
        out.push(0);
        i = i + 1;
    }
    out
}

/// A copy of a byte vector.
pub fn clone_bytes(v: &Vec<u8>) -> (r: Vec<u8>)
    ensures
        r@ == v@,
{
    vstd::slice::slice_to_vec(v.as_slice())
}

} // verus!

//! The index file: its magic header and the fixed 28-byte index record.
//!
//! The index record is the authoritative locator of a data record. Records
//! are written back to back after the 16-byte magic header, so a reader that
//! has validated the header may slice the rest into 28-byte chunks.

use vstd::prelude::*;
use vstd::bytes::{
    spec_u32_from_le_bytes, spec_u32_to_le_bytes, spec_u64_from_le_bytes, spec_u64_to_le_bytes,
    u32_from_le_bytes, u32_to_le_bytes, u64_from_le_bytes, u64_to_le_bytes,
    lemma_auto_spec_u32_to_from_le_bytes, lemma_auto_spec_u64_to_from_le_bytes,
};
use vstd::slice::slice_subrange;
use vstd::string::StringExecFns;
use crate::digits::{digits_of, digits_pad, push_digits, push_digits_pad, lemma_digits_of_are_digits, lemma_digits_pad_roundtrip};
use crate::errors::{CustomError, DecodeError};
use crate::outside::string_from_ascii;

verus! {

/// Magic number of the index file header.
pub const INDEX_HEADER_MAGIC: u64 = 5201314;

/// The 16-byte header at the start of every index file.
#[derive(Debug)]
pub struct IndexMagicHeader {
    /// Holds INDEX_HEADER_MAGIC in every well-formed file.
    pub index_header_magic: u64,
    /// The stack this file belongs to.
    pub stack_id: u64,
}

/// The bytes of an index magic header.
pub open spec fn spec_encode_index_magic(h: IndexMagicHeader) -> Seq<u8> {
    spec_u64_to_le_bytes(h.index_header_magic) + spec_u64_to_le_bytes(h.stack_id)
}

/// The index magic header denoted by 16 bytes.
pub open spec fn spec_decode_index_magic(b: Seq<u8>) -> IndexMagicHeader
    recommends
        b.len() == 16,
{
    IndexMagicHeader {
        index_header_magic: spec_u64_from_le_bytes(b.subrange(0, 8)),
        stack_id: spec_u64_from_le_bytes(b.subrange(8, 16)),
    }
}

impl IndexMagicHeader {
    /// An index magic header for the given stack.
    pub fn new(stack_id: u64) -> (r: Self)
        ensures
            r.index_header_magic == INDEX_HEADER_MAGIC,
            r.stack_id == stack_id,
    {
        IndexMagicHeader { index_header_magic: INDEX_HEADER_MAGIC, stack_id }
    }

    /// Size of the encoded header.
    pub fn size() -> (r: usize)
        ensures
            r == 16,
    {
        16
    }

    /// Whether the magic number is the index magic.
    pub fn valid(&self) -> (r: bool)
        ensures
            r == (self.index_header_magic == INDEX_HEADER_MAGIC),
    {
        self.index_header_magic == INDEX_HEADER_MAGIC
    }

    /// Encode to the 16-byte wire form.
    pub fn encode(&self) -> (r: Vec<u8>)
        ensures
            r@ == spec_encode_index_magic(*self),
            r@.len() == 16,
    {
        proof {
            lemma_auto_spec_u64_to_from_le_bytes();
        }
        let mut out = u64_to_le_bytes(self.index_header_magic);
        let mut tail = u64_to_le_bytes(self.stack_id);
        out.append(&mut tail);
        out
    }

    /// Decode from exactly 16 bytes.
    pub fn new_from_bytes(b: &[u8]) -> (r: Result<Self, DecodeError>)
        ensures
            match r {
                Ok(h) => b@.len() == 16 && h == spec_decode_index_magic(b@),
                Err(e) => b@.len() != 16 && e is ShortRead,
            },
    {
        if b.len() != 16 {
            return Err(DecodeError::ShortRead(CustomError::new(String::from_str(
                "index magic header needs 16 bytes",
            ))));
        }
        let magic = u64_from_le_bytes(slice_subrange(b, 0, 8));
        let stack_id = u64_from_le_bytes(slice_subrange(b, 8, 16));
        Ok(IndexMagicHeader { index_header_magic: magic, stack_id })
    }
}

/// Encoding an index magic header and reading it back gives the header.
pub proof fn lemma_index_magic_roundtrip(h: IndexMagicHeader)
    ensures
        spec_encode_index_magic(h).len() == 16,
        spec_decode_index_magic(spec_encode_index_magic(h)) == h,
{
    lemma_auto_spec_u64_to_from_le_bytes();
    let e = spec_encode_index_magic(h);
    assert(e.subrange(0, 8) =~= spec_u64_to_le_bytes(h.index_header_magic));
    assert(e.subrange(8, 16) =~= spec_u64_to_le_bytes(h.stack_id));
}

/// One 28-byte index record:
/// `| cookie: u32 | offset_data: u64 | size_data: u32 | offset_meta: u64 | size_meta: u32 |`,
/// all little-endian.
#[derive(Debug)]
pub struct IndexRecord {
    /// The random per-record cookie.
    pub cookie: u32,
    /// Byte offset of the data record inside the data file.
    pub offset_data: u64,
    /// Payload length in bytes.
    pub size_data: u32,
    /// Byte offset of the meta record inside the meta file.
    pub offset_meta: u64,
    /// Serialized length of the meta record, newline included.
    pub size_meta: u32,
}

impl PartialEq for IndexRecord {
    fn eq(&self, other: &IndexRecord) -> bool {
        self.cookie == other.cookie && self.offset_data == other.offset_data
            && self.size_data == other.size_data && self.offset_meta == other.offset_meta
            && self.size_meta == other.size_meta
    }
}

impl vstd::std_specs::cmp::PartialEqSpecImpl for IndexRecord {
    open spec fn obeys_eq_spec() -> bool {
        true
    }

    open spec fn eq_spec(&self, other: &IndexRecord) -> bool {
        self.cookie == other.cookie && self.offset_data == other.offset_data
            && self.size_data == other.size_data && self.offset_meta == other.offset_meta
            && self.size_meta == other.size_meta
    }
}

/// The bytes of an index record.
pub open spec fn spec_encode_index_record(r: IndexRecord) -> Seq<u8> {
    spec_u32_to_le_bytes(r.cookie) + spec_u64_to_le_bytes(r.offset_data)
        + spec_u32_to_le_bytes(r.size_data) + spec_u64_to_le_bytes(r.offset_meta)
        + spec_u32_to_le_bytes(r.size_meta)
}

/// The index record denoted by 28 bytes.
pub open spec fn spec_decode_index_record(b: Seq<u8>) -> IndexRecord
    recommends
        b.len() == 28,
{
    IndexRecord {
        cookie: spec_u32_from_le_bytes(b.subrange(0, 4)),
        offset_data: spec_u64_from_le_bytes(b.subrange(4, 12)),
        size_data: spec_u32_from_le_bytes(b.subrange(12, 16)),
        offset_meta: spec_u64_from_le_bytes(b.subrange(16, 24)),
        size_meta: spec_u32_from_le_bytes(b.subrange(24, 28)),
    }
}

/// Encoding an index record and reading it back gives the record.
pub proof fn lemma_index_record_roundtrip(r: IndexRecord)
    ensures
        spec_encode_index_record(r).len() == 28,
        spec_decode_index_record(spec_encode_index_record(r)) == r,
{
    lemma_auto_spec_u32_to_from_le_bytes();
    lemma_auto_spec_u64_to_from_le_bytes();
    let e = spec_encode_index_record(r);
    assert(e.subrange(0, 4) =~= spec_u32_to_le_bytes(r.cookie));
    assert(e.subrange(4, 12) =~= spec_u64_to_le_bytes(r.offset_data));
    assert(e.subrange(12, 16) =~= spec_u32_to_le_bytes(r.size_data));
    assert(e.subrange(16, 24) =~= spec_u64_to_le_bytes(r.offset_meta));
    assert(e.subrange(24, 28) =~= spec_u32_to_le_bytes(r.size_meta));
}

/// The character form of the per-record identifier: the data offset in
/// unpadded lower-case hex, then the cookie as exactly eight hex digits.
pub open spec fn spec_index_id_chars(offset_data: u64, cookie: u32) -> Seq<char> {
    (digits_of(offset_data as nat, 16) + digits_pad(cookie as nat, 16, 8)).map_values(
        |b: u8| b as char,
    )
}

impl IndexRecord {
    /// A record for one write.
    pub fn new(cookie: u32, offset_data: u64, size_data: u32, offset_meta: u64, size_meta: u32) -> (
        r: Self)
        ensures
            r == (IndexRecord { cookie, offset_data, size_data, offset_meta, size_meta }),
    {
        IndexRecord { cookie, size_data, offset_data, offset_meta, size_meta }
    }

    /// The in-stack part of the record's index identifier:
    /// `{offset_data:x}{cookie:08x}`.
    pub fn index_id(&self) -> (r: String)
        ensures
            r@ == spec_index_id_chars(self.offset_data, self.cookie),
    {
        let mut bytes: Vec<u8> = Vec::new();
        push_digits(self.offset_data, 16, &mut bytes);
        push_digits_pad(self.cookie as u64, 16, 8, &mut bytes);
        proof {
            lemma_digits_of_are_digits(self.offset_data as nat, 16);
            lemma_digits_pad_roundtrip(self.cookie as nat, 16, 8);
            assert(forall|i: int| 0 <= i < bytes@.len() ==> bytes@[i] < 128);
        }
        string_from_ascii(bytes)
    }

    /// Size of the encoded record.
    pub fn size() -> (r: usize)
        ensures
            r == 28,
    {
        28
    }

    /// Encode to the 28-byte wire form.
    pub fn encode(&self) -> (r: Vec<u8>)
        ensures
            r@ == spec_encode_index_record(*self),
            r@.len() == 28,
    {
        proof {
            lemma_auto_spec_u32_to_from_le_bytes();
            lemma_auto_spec_u64_to_from_le_bytes();
        }
        let mut out = u32_to_le_bytes(self.cookie);
        let mut b1 = u64_to_le_bytes(self.offset_data);
        out.append(&mut b1);
        let mut b2 = u32_to_le_bytes(self.size_data);
        out.append(&mut b2);
        let mut b3 = u64_to_le_bytes(self.offset_meta);
        out.append(&mut b3);
        let mut b4 = u32_to_le_bytes(self.size_meta);
        out.append(&mut b4);
        proof {
            assert(out@ =~= spec_encode_index_record(*self));
        }
        out
    }

    /// Decode from exactly 28 bytes.
    pub fn new_from_bytes(data: &[u8]) -> (r: Result<IndexRecord, DecodeError>)
        ensures
            match r {
                Ok(rec) => data@.len() == 28 && rec == spec_decode_index_record(data@),
                Err(e) => data@.len() != 28 && e is ShortRead,
            },
    {
        if data.len() != 28 {
            return Err(DecodeError::ShortRead(CustomError::new(String::from_str(
                "index record needs 28 bytes",
            ))));
        }
        Ok(IndexRecord {
            cookie: u32_from_le_bytes(slice_subrange(data, 0, 4)),
            offset_data: u64_from_le_bytes(slice_subrange(data, 4, 12)),
            size_data: u32_from_le_bytes(slice_subrange(data, 12, 16)),
            offset_meta: u64_from_le_bytes(slice_subrange(data, 16, 24)),
            size_meta: u32_from_le_bytes(slice_subrange(data, 24, 28)),
        })
    }
}

/// Lemma: the maps and bounds behind `spec_index_id_chars` — every char of an
/// index identifier is an ASCII hex digit, so in particular no comma.
pub proof fn lemma_index_id_chars_ascii(offset_data: u64, cookie: u32)
    ensures
        forall|i: int|
            0 <= i < spec_index_id_chars(offset_data, cookie).len()
                ==> (#[trigger] spec_index_id_chars(offset_data, cookie)[i]) != ','
                && (spec_index_id_chars(offset_data, cookie)[i] as u32) < 128,
        spec_index_id_chars(offset_data, cookie).len() >= 9,
{
    lemma_digits_of_are_digits(offset_data as nat, 16);
    lemma_digits_pad_roundtrip(cookie as nat, 16, 8);
    let ds = digits_of(offset_data as nat, 16);
    let pad = digits_pad(cookie as nat, 16, 8);
    let bs = ds + pad;
    assert forall|i: int| 0 <= i < bs.len() implies (bs[i] as char) != ',' && (bs[i] as u32)
        < 128 by {
        if i < ds.len() {
            assert(crate::digits::is_digit(ds[i], 16));
        } else {
            assert(crate::digits::is_digit(pad[i - ds.len()], 16));
        }
        assert(crate::digits::digit_val(bs[i]) < 16);
    }
}

} // verus!

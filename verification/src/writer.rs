//! The stack writer: appends records, emits a stable index identifier per
//! record, and rolls over to a fresh stack when the size bound is reached.
//!
//! The writer computes bytes; it performs no I/O. Each successful `put` hands
//! back the exact chunks to append to the three stack files (and, on a
//! rollover, the magic chunks that open the fresh stack); the caller appends
//! them in the order index, meta, data. A ghost record sequence ties the
//! writer's offsets to the full byte streams written so far.

use vstd::prelude::*;
use vstd::string::StringExecFns;
use crate::data::{
    spec_encode_data_magic, spec_encode_record_header, spec_new_record_header, spec_pad_of,
    DataMagicHeader, DataRecord,
};
use crate::errors::{CustomError, ErrorKind};
use crate::index::{spec_encode_index_magic, spec_encode_index_record, IndexMagicHeader, IndexRecord};
use crate::index_id::{full_index_id, spec_full_index_id_chars};
use crate::meta::{spec_meta_json, spec_meta_magic_json, MetaMagicHeader, MetaRecord};
use crate::outside::{crc32c, crc32c_of, current_time, random_u32};

verus! {

/// The default size bound of one stack's data file.
pub const MAX_STACK_BYTES: u64 = 5368709120;

/// Ghost description of one record as it was put.
pub ghost struct RecordInfo {
    /// The random cookie drawn for this record.
    pub cookie: u32,
    /// The write timestamp recorded in the meta record.
    pub create_time: u64,
    /// Byte offset of the data record inside the data file.
    pub offset_data: u64,
    /// Payload length.
    pub size_data: u32,
    /// Byte offset of the meta record inside the meta file.
    pub offset_meta: u64,
    /// Serialized meta length, newline included.
    pub size_meta: u32,
    /// The user's file name.
    pub filename: Seq<char>,
    /// The opaque extra bytes.
    pub extra: Seq<u8>,
    /// The payload.
    pub payload: Seq<u8>,
}

/// `n` zero bytes.
pub open spec fn spec_zeros(n: nat) -> Seq<u8> {
    Seq::new(n, |i: int| 0u8)
}

/// The index record a put writes for `r`.
pub open spec fn spec_index_record_of(r: RecordInfo) -> IndexRecord {
    IndexRecord {
        cookie: r.cookie,
        offset_data: r.offset_data,
        size_data: r.size_data,
        offset_meta: r.offset_meta,
        size_meta: r.size_meta,
    }
}

/// The meta line a put writes for `r`: JSON plus newline.
pub open spec fn spec_meta_line_of(r: RecordInfo) -> Seq<u8> {
    spec_meta_json(r.create_time, r.offset_data, r.size_data, r.cookie, r.filename, r.extra)
        + seq![0x0au8]
}

/// The data chunk a put writes for `r`: header, payload, zero padding.
pub open spec fn spec_data_record_bytes(r: RecordInfo) -> Seq<u8> {
    spec_encode_record_header(
        spec_new_record_header(r.cookie, r.size_data, crc32c_of(r.payload)),
    ) + r.payload + spec_zeros(spec_pad_of(r.payload.len()))
}

/// The reserved first block of a data file: the magic header zero-extended to
/// the alignment.
pub open spec fn spec_data_block(stack_id: u64) -> Seq<u8> {
    spec_encode_data_magic(
        DataMagicHeader { data_magic_number: crate::data::DATA_HEADER_MAGIC, stack_id },
    ) + spec_zeros(4080)
}

/// The index magic bytes of a stack.
pub open spec fn spec_index_magic_bytes(stack_id: u64) -> Seq<u8> {
    spec_encode_index_magic(
        IndexMagicHeader { index_header_magic: crate::index::INDEX_HEADER_MAGIC, stack_id },
    )
}

/// The meta magic line of a stack.
pub open spec fn spec_meta_magic_line(stack_id: u64) -> Seq<u8> {
    spec_meta_magic_json(stack_id) + seq![0x0au8]
}

/// The whole index file of a stack holding `recs`.
pub open spec fn spec_index_stream(stack_id: u64, recs: Seq<RecordInfo>) -> Seq<u8>
    decreases recs.len(),
{
    if recs.len() == 0 {
        spec_index_magic_bytes(stack_id)
    } else {
        spec_index_stream(stack_id, recs.drop_last()) + spec_encode_index_record(
            spec_index_record_of(recs.last()),
        )
    }
}

/// The whole meta file of a stack holding `recs`.
pub open spec fn spec_meta_stream(stack_id: u64, recs: Seq<RecordInfo>) -> Seq<u8>
    decreases recs.len(),
{
    if recs.len() == 0 {
        spec_meta_magic_line(stack_id)
    } else {
        spec_meta_stream(stack_id, recs.drop_last()) + spec_meta_line_of(recs.last())
    }
}

/// The whole data file of a stack holding `recs`.
pub open spec fn spec_data_stream(stack_id: u64, recs: Seq<RecordInfo>) -> Seq<u8>
    decreases recs.len(),
{
    if recs.len() == 0 {
        spec_data_block(stack_id)
    } else {
        spec_data_stream(stack_id, recs.drop_last()) + spec_data_record_bytes(recs.last())
    }
}

/// Well-formedness of one recorded put.
pub open spec fn spec_record_wf(r: RecordInfo) -> bool {
    &&& r.payload.len() == r.size_data
    &&& r.size_meta == spec_meta_json(
        r.create_time,
        r.offset_data,
        r.size_data,
        r.cookie,
        r.filename,
        r.extra,
    ).len() + 1
}

/// Well-formedness of a record sequence: every record is sound and sits at
/// the offsets where the streams place it.
pub open spec fn spec_records_wf(stack_id: u64, recs: Seq<RecordInfo>) -> bool {
    forall|i: int|
        0 <= i < recs.len() ==> {
            &&& spec_record_wf(#[trigger] recs[i])
            &&& recs[i].offset_data == spec_data_stream(stack_id, recs.take(i)).len()
            &&& recs[i].offset_meta == spec_meta_stream(stack_id, recs.take(i)).len()
        }
}

/// The open inner writer of one stack.
pub struct InnerWriter {
    /// The stack being written.
    pub stack_id: u64,
    /// Next free byte of the data file.
    pub data_offset: u64,
    /// Next free byte of the meta file.
    pub meta_offset: u64,
    /// Bytes accounted against the size bound: header, payload and padding of
    /// every record so far.
    pub accumulated: u64,
    /// The puts made to this stack.
    pub records: Ghost<Seq<RecordInfo>>,
}

impl InnerWriter {
    /// The writer's counters agree with the streams its records denote.
    pub open spec fn wf(&self) -> bool {
        &&& spec_records_wf(self.stack_id, self.records@)
        &&& self.data_offset == spec_data_stream(self.stack_id, self.records@).len()
        &&& self.meta_offset == spec_meta_stream(self.stack_id, self.records@).len()
        &&& self.accumulated == self.data_offset - 4096
        &&& self.data_offset % 4096 == 0
    }
}

/// The magic chunks that open a fresh stack; the caller creates the three
/// files and writes one chunk into each.
pub struct StackOpening {
    /// The fresh stack.
    pub stack_id: u64,
    /// First 16 bytes of the index file.
    pub index_magic: Vec<u8>,
    /// First line of the meta file.
    pub meta_magic: Vec<u8>,
    /// First 4096 bytes of the data file.
    pub data_block: Vec<u8>,
}

/// What one successful put hands back: the chunks to append, in the order
/// index, meta, data, and the record's full index identifier.
pub struct PutOutput {
    /// The record's index identifier, `{stack_id},{offset:x}{cookie:08x}`.
    pub index_id: String,
    /// The stack the record went to.
    pub stack_id: u64,
    /// A stack to finalize first, where the put rolled over.
    pub closed_stack: Option<u64>,
    /// Magic chunks of a freshly opened stack, where the put opened one.
    pub opened: Option<StackOpening>,
    /// Bytes to append to the index file.
    pub index_chunk: Vec<u8>,
    /// Bytes to append to the meta file.
    pub meta_chunk: Vec<u8>,
    /// Bytes to append to the data file.
    pub data_chunk: Vec<u8>,
}

/// The stack writer. Single-owner: one writer, one sequence of puts.
pub struct StackWriter {
    /// Path prefix of the stack files.
    pub prefix: String,
    /// Size bound that triggers rollover.
    pub max_stack_bytes: u64,
    /// The open inner writer, if a stack is open.
    pub inner: Option<InnerWriter>,
}

impl StackWriter {
    /// Invariant of the writer.
    pub open spec fn wf(&self) -> bool {
        &&& self.max_stack_bytes <= u64::MAX - 0x400000000
        &&& match self.inner {
            None => true,
            Some(w) => w.wf() && w.accumulated <= self.max_stack_bytes + 0x100003000,
        }
    }

    /// A writer with the default size bound. No stack is open yet.
    pub fn new(prefix: String) -> (r: Self)
        ensures
            r.wf(),
            r.prefix == prefix,
            r.max_stack_bytes == MAX_STACK_BYTES,
            r.inner is None,
    {
        StackWriter { prefix, max_stack_bytes: MAX_STACK_BYTES, inner: None }
    }

    /// A writer with an explicit size bound.
    pub fn with_limit(prefix: String, max_stack_bytes: u64) -> (r: Self)
        requires
            max_stack_bytes <= u64::MAX - 0x400000000,
        ensures
            r.wf(),
            r.prefix == prefix,
            r.max_stack_bytes == max_stack_bytes,
            r.inner is None,
    {
        StackWriter { prefix, max_stack_bytes, inner: None }
    }

    /// Whether the next put of `payload_len` bytes must go to a fresh stack:
    /// no stack is open, or the pre-write accumulated size plus the unpadded
    /// payload length would pass the bound.
    pub open spec fn spec_wants_rollover(&self, payload_len: nat) -> bool {
        match self.inner {
            None => true,
            Some(w) => w.accumulated + payload_len > self.max_stack_bytes,
        }
    }

    /// Exec mirror of `spec_wants_rollover`. The caller asks this before a
    /// put to know whether a fresh stack identifier is needed.
    pub fn wants_rollover(&self, payload_len: usize) -> (r: bool)
        ensures
            r == self.spec_wants_rollover(payload_len as nat),
    {
        match &self.inner {
            None => true,
            Some(w) => {
                if w.accumulated > self.max_stack_bytes {
                    true
                } else {
                    payload_len as u64 > self.max_stack_bytes - w.accumulated
                }
            },
        }
    }

    /// The stack the writer is currently filling.
    pub fn current_stack(&self) -> (r: Option<u64>)
        ensures
            match r {
                Some(sid) => self.inner matches Some(w) && w.stack_id == sid,
                None => self.inner is None,
            },
    {
        match &self.inner {
            None => None,
            Some(w) => Some(w.stack_id),
        }
    }

    /// Append one record, drawing the cookie and timestamp. `fresh_stack_id`
    /// is consumed only where `wants_rollover` held; the caller obtains it
    /// from the allocation service. Success is owed whenever the put fits for
    /// every cookie and timestamp the draw could produce; only the drawn
    /// values can make the difference otherwise (the timestamp's digit count
    /// moves the meta line's length).
    pub fn put(
        &mut self,
        buf: Vec<u8>,
        filename: String,
        meta: Option<Vec<u8>>,
        fresh_stack_id: u64,
    ) -> (r: Result<PutOutput, ErrorKind>)
        requires
            old(self).wf(),
        ensures
            final(self).wf(),
            final(self).prefix == old(self).prefix,
            final(self).max_stack_bytes == old(self).max_stack_bytes,
            match r {
                Ok(out) => spec_put_ok(
                    *old(self),
                    *final(self),
                    out,
                    buf@,
                    filename@,
                    spec_extra_of(meta),
                    fresh_stack_id,
                ),
                Err(e) => *final(self) == *old(self) && e is InvalidArgument,
            },
            buf@.len() > u32::MAX ==> r is Err,
            (forall|ck: u32, ct: u64|
                spec_put_fits(
                    *old(self),
                    buf@,
                    filename@,
                    spec_extra_of(meta),
                    fresh_stack_id,
                    ck,
                    ct,
                )) ==> r is Ok,
    {
        let cookie: u32 = random_u32();
        let create_time: u64 = current_time();
        let ghost pre = *self;
        let ghost extra = spec_extra_of(meta);
        let ghost payload = buf@;
        let ghost fname = filename@;
        let r = self.put_with(buf, filename, meta, fresh_stack_id, cookie, create_time);
        proof {
            if forall|ck: u32, ct: u64|
                spec_put_fits(pre, payload, fname, extra, fresh_stack_id, ck, ct) {
                assert(spec_put_fits(pre, payload, fname, extra, fresh_stack_id, cookie, create_time));
            }
        }
        r
    }

    /// Append one record with the cookie and timestamp given. The contract is
    /// exact: the put succeeds if and only if the payload fits a `u32` size
    /// field, the machine can hold the padded record, and the meta line fits
    /// its `u32` size field and the meta file's remaining space.
    #[verifier::rlimit(100)]
    pub fn put_with(
        &mut self,
        buf: Vec<u8>,
        filename: String,
        meta: Option<Vec<u8>>,
        fresh_stack_id: u64,
        cookie: u32,
        create_time: u64,
    ) -> (r: Result<PutOutput, ErrorKind>)
        requires
            old(self).wf(),
        ensures
            final(self).wf(),
            final(self).prefix == old(self).prefix,
            final(self).max_stack_bytes == old(self).max_stack_bytes,
            r is Ok <==> spec_put_fits(
                *old(self),
                buf@,
                filename@,
                spec_extra_of(meta),
                fresh_stack_id,
                cookie,
                create_time,
            ),
            match r {
                Ok(out) => {
                    &&& spec_put_ok(
                        *old(self),
                        *final(self),
                        out,
                        buf@,
                        filename@,
                        spec_extra_of(meta),
                        fresh_stack_id,
                    )
                    &&& final(self).inner matches Some(w) && w.records@.last().cookie == cookie
                        && w.records@.last().create_time == create_time
                },
                Err(e) => *final(self) == *old(self) && e is InvalidArgument,
            },
    {
        let extra: Vec<u8> = match meta {
            Some(m) => m,
            None => Vec::new(),
        };
        if buf.len() > 0xffffffffusize || buf.len() > usize::MAX - 4120 {
            return Err(ErrorKind::InvalidArgument(CustomError::new(String::from_str(
                "payload size does not fit a u32 size field",
            ))));
        }
        let rolled = self.wants_rollover(buf.len());
        let ghost old_self = *self;

        // Where this record will land.
        let stack_id: u64 = if rolled {
            fresh_stack_id
        } else {
            match &self.inner {
                Some(w) => w.stack_id,
                None => fresh_stack_id,
            }
        };
        let (data_offset, meta_offset, accumulated): (u64, u64, u64) = if rolled {
            let mh = MetaMagicHeader::new(stack_id);
            (4096, mh.size() as u64, 0)
        } else {
            match &self.inner {
                Some(w) => (w.data_offset, w.meta_offset, w.accumulated),
                None => (0, 0, 0),
            }
        };
        // Build the meta record and check that it fits.
        let crc_sum = crc32c(&buf);
        let mr = MetaRecord::new(
            create_time,
            data_offset,
            cookie,
            buf.len() as u32,
            filename,
            extra,
        );
        let meta_chunk = mr.encode_line();
        if meta_chunk.len() > 0xffffffffusize {
            return Err(ErrorKind::InvalidArgument(CustomError::new(String::from_str(
                "meta record size does not fit a u32 size field",
            ))));
        }
        let size_meta = meta_chunk.len() as u32;
        if meta_offset > u64::MAX - (size_meta as u64) {
            return Err(ErrorKind::InvalidArgument(CustomError::new(String::from_str(
                "meta file offset would overflow",
            ))));
        }

        // Build the index record and the data record.
        let ir = IndexRecord::new(cookie, data_offset, buf.len() as u32, meta_offset, size_meta);
        let index_chunk = ir.encode();
        let dr = DataRecord::new(cookie, buf.len() as u32, crc_sum, buf);
        let data_chunk = dr.encode();
        let record_len = data_chunk.len() as u64;

        let (closed_stack, opened): (Option<u64>, Option<StackOpening>) = if rolled {
            let closed = match &self.inner {
                Some(w) => Some(w.stack_id),
                None => None,
            };
            let imh = IndexMagicHeader::new(stack_id);
            let mmh = MetaMagicHeader::new(stack_id);
            let dmh = DataMagicHeader::new(stack_id);
            let mut data_block = dmh.encode();
            let mut zeros = crate::data::zero_vec(4080);
            data_block.append(&mut zeros);
            proof {
                assert(data_block@ =~= spec_data_block(stack_id));
            }
            (
                closed,
                Some(
                    StackOpening {
                        stack_id,
                        index_magic: imh.encode(),
                        meta_magic: mmh.encode_line(),
                        data_block,
                    },
                ),
            )
        } else {
            (None, None)
        };

        let ghost base: Seq<RecordInfo> = if rolled {
            Seq::empty()
        } else {
            old_self.inner->Some_0.records@
        };
        let ghost rec = RecordInfo {
            cookie,
            create_time,
            offset_data: data_offset,
            size_data: dr.data.len() as u32,
            offset_meta: meta_offset,
            size_meta,
            filename: mr.filename@,
            extra: mr.extra@,
            payload: dr.data@,
        };

        let index_id = full_index_id(stack_id, data_offset, cookie);

        proof {
            lemma_magic_lens(stack_id);
            lemma_stream_push(stack_id, base, rec);
            lemma_data_record_bytes_len(rec);
            crate::data::lemma_padding_aligned(rec.payload.len());

            // The chunks are the encodings of the appended record.
            assert(dr.padding@ =~= spec_zeros(spec_pad_of(rec.payload.len())));
            assert(data_chunk@ == spec_data_record_bytes(rec));
            assert(ir == spec_index_record_of(rec));
            assert(meta_chunk@ == spec_meta_line_of(rec));
            assert(rec.size_meta == spec_meta_line_of(rec).len());

            // The record lands exactly at the end of the base streams.
            if rolled {
                assert(base =~= Seq::<RecordInfo>::empty());
                assert(spec_data_stream(stack_id, base) == spec_data_block(stack_id));
                assert(spec_meta_stream(stack_id, base) == spec_meta_magic_line(stack_id));
            } else {
                assert(old(self).inner is Some);
                assert(base == old(self).inner->Some_0.records@);
            }
            assert(rec.offset_data == spec_data_stream(stack_id, base).len());
            assert(rec.offset_meta == spec_meta_stream(stack_id, base).len());
            assert(record_len == 20 + rec.payload.len() + spec_pad_of(rec.payload.len()));
            assert(spec_data_stream(stack_id, base.push(rec)).len() == data_offset + record_len);
            assert(spec_meta_stream(stack_id, base.push(rec)).len() == meta_offset
                + size_meta as u64);

            // Alignment of the new data offset.
            assert(record_len % 4096 == 0) by {
                assert(record_len == spec_pad_of(rec.payload.len()) + rec.payload.len() + 20);
            }
            assert((data_offset + record_len) % 4096 == 0) by {
                vstd::arithmetic::div_mod::lemma_add_mod_noop(
                    data_offset as int,
                    record_len as int,
                    4096,
                );
            }

            // Record well-formedness for the extended sequence.
            assert(base.push(rec).drop_last() =~= base);
            assert(base.push(rec).take(base.len() as int) =~= base);
            assert forall|i: int| 0 <= i < base.push(rec).len() implies {
                &&& spec_record_wf(#[trigger] base.push(rec)[i])
                &&& base.push(rec)[i].offset_data == spec_data_stream(
                    stack_id,
                    base.push(rec).take(i),
                ).len()
                &&& base.push(rec)[i].offset_meta == spec_meta_stream(
                    stack_id,
                    base.push(rec).take(i),
                ).len()
            } by {
                if i < base.len() {
                    assert(base.push(rec)[i] == base[i]);
                    assert(base.push(rec).take(i) =~= base.take(i));
                    assert(spec_records_wf(stack_id, base));
                } else {
                    assert(base.push(rec)[i] == rec);
                }
            }
        }

        let new_inner = InnerWriter {
            stack_id,
            data_offset: data_offset + record_len,
            meta_offset: meta_offset + size_meta as u64,
            accumulated: accumulated + record_len,
            records: Ghost(base.push(rec)),
        };
        self.inner = Some(new_inner);

        Ok(
            PutOutput {
                index_id,
                stack_id,
                closed_stack,
                opened,
                index_chunk,
                meta_chunk,
                data_chunk,
            },
        )
    }

    /// Close the writer. Returns the stack the caller must finalize, or
    /// `None` — and leaves no other trace — where nothing was open: closing
    /// an already-closed writer has no observable effect.
    pub fn close(&mut self) -> (r: Option<u64>)
        requires
            old(self).wf(),
        ensures
            final(self).wf(),
            final(self).inner is None,
            final(self).prefix == old(self).prefix,
            final(self).max_stack_bytes == old(self).max_stack_bytes,
            match old(self).inner {
                Some(w) => r == Some(w.stack_id),
                None => r is None && *final(self) == *old(self),
            },
    {
        let r = match &self.inner {
            Some(w) => Some(w.stack_id),
            None => None,
        };
        self.inner = None;
        r
    }
}

/// The extra bytes of a put: the given ones, or empty.
pub open spec fn spec_extra_of(meta: Option<Vec<u8>>) -> Seq<u8> {
    match meta {
        Some(m) => m@,
        None => Seq::empty(),
    }
}

/// Whether a put of these arguments fits: payload within the `u32` size field
/// and the machine word, meta line within its `u32` size field, and the meta
/// file offset within `u64`.
pub open spec fn spec_put_fits(
    w: StackWriter,
    payload: Seq<u8>,
    filename: Seq<char>,
    extra: Seq<u8>,
    fresh_stack_id: u64,
    cookie: u32,
    create_time: u64,
) -> bool {
    let rolled = w.spec_wants_rollover(payload.len());
    let stack_id = spec_put_stack(w, payload.len(), fresh_stack_id);
    let offset_data = if rolled {
        4096
    } else {
        w.inner->Some_0.data_offset
    };
    let meta_offset = if rolled {
        spec_meta_magic_line(stack_id).len()
    } else {
        w.inner->Some_0.meta_offset as nat
    };
    let line = spec_meta_json(
        create_time,
        offset_data as u64,
        payload.len() as u32,
        cookie,
        filename,
        extra,
    ).len() + 1;
    &&& payload.len() <= u32::MAX
    &&& payload.len() <= usize::MAX - 4120
    &&& line <= u32::MAX
    &&& meta_offset + line <= u64::MAX
}

/// The stack a put of this payload goes to.
pub open spec fn spec_put_stack(w: StackWriter, payload_len: nat, fresh_stack_id: u64) -> u64 {
    if w.spec_wants_rollover(payload_len) {
        fresh_stack_id
    } else {
        w.inner->Some_0.stack_id
    }
}

/// What a successful put did: where the record went, what the new state
/// holds, and that every output chunk is exactly the encoding of the record
/// appended to the ghost stream model.
pub open spec fn spec_put_ok(
    pre: StackWriter,
    post: StackWriter,
    out: PutOutput,
    payload: Seq<u8>,
    filename: Seq<char>,
    extra: Seq<u8>,
    fresh_stack_id: u64,
) -> bool {
    let rolled = pre.spec_wants_rollover(payload.len());
    let sid = spec_put_stack(pre, payload.len(), fresh_stack_id);
    let base: Seq<RecordInfo> = if rolled {
        Seq::empty()
    } else {
        pre.inner->Some_0.records@
    };
    &&& out.stack_id == sid
    &&& post.inner is Some
    &&& {
        let w = post.inner->Some_0;
        let rec = w.records@.last();
        &&& w.stack_id == sid
        &&& w.records@ == base.push(rec)
        &&& rec.payload == payload
        &&& rec.size_data == payload.len()
        &&& rec.filename == filename
        &&& rec.extra == extra
        &&& rec.offset_data == spec_data_stream(sid, base).len()
        &&& rec.offset_meta == spec_meta_stream(sid, base).len()
        &&& out.index_id@ == spec_full_index_id_chars(sid, rec.offset_data, rec.cookie)
        &&& out.index_chunk@ == spec_encode_index_record(spec_index_record_of(rec))
        &&& out.meta_chunk@ == spec_meta_line_of(rec)
        &&& out.data_chunk@ == spec_data_record_bytes(rec)
        &&& w.data_offset == spec_data_stream(sid, w.records@).len()
        &&& w.data_offset % 4096 == 0
        &&& (rolled ==> out.closed_stack == spec_open_stack_of(pre) && (
        out.opened matches Some(op) && op.stack_id == sid && op.index_magic@
            == spec_index_magic_bytes(sid) && op.meta_magic@ == spec_meta_magic_line(sid)
            && op.data_block@ == spec_data_block(sid)))
        &&& (!rolled ==> out.closed_stack is None && out.opened is None && w.records@
            == pre.inner->Some_0.records@.push(rec))
    }
}

/// The stack a writer currently holds open, if any.
pub open spec fn spec_open_stack_of(w: StackWriter) -> Option<u64> {
    match w.inner {
        None => None,
        Some(iw) => Some(iw.stack_id),
    }
}

/// A put fits for every cookie and timestamp the draw could produce — so by
/// `put`'s contract success is owed — whenever the payload fits its size
/// field and the machine word, the meta line's worst-case length fits its
/// own size field, and an already-open meta file leaves room for one more
/// line.
pub proof fn lemma_put_always_fits(
    w: StackWriter,
    payload: Seq<u8>,
    filename: Seq<char>,
    extra: Seq<u8>,
    fresh_stack_id: u64,
)
    requires
        payload.len() <= u32::MAX,
        payload.len() <= usize::MAX - 4120,
        141 + 6 * vstd::utf8::encode_utf8(filename).len() + 4 * extra.len() <= u32::MAX,
        match w.inner {
            Some(iw) => w.spec_wants_rollover(payload.len()) || iw.meta_offset <= u64::MAX
                - 0x100000000,
            None => true,
        },
    ensures
        forall|ck: u32, ct: u64|
            spec_put_fits(w, payload, filename, extra, fresh_stack_id, ck, ct),
{
    let rolled = w.spec_wants_rollover(payload.len());
    let sid = spec_put_stack(w, payload.len(), fresh_stack_id);
    assert forall|ck: u32, ct: u64|
        spec_put_fits(w, payload, filename, extra, fresh_stack_id, ck, ct) by {
        let off: u64 = if rolled {
            4096
        } else {
            w.inner->Some_0.data_offset
        };
        crate::meta::lemma_meta_json_len_bound(
            ct,
            off,
            payload.len() as u32,
            ck,
            filename,
            extra,
        );
        if rolled {
            crate::meta::lemma_meta_magic_json_len_bound(sid);
        }
    }
}

/// Appending one record extends each stream by exactly that record's chunk.
pub proof fn lemma_stream_push(stack_id: u64, recs: Seq<RecordInfo>, rec: RecordInfo)
    ensures
        spec_index_stream(stack_id, recs.push(rec)) == spec_index_stream(stack_id, recs)
            + spec_encode_index_record(spec_index_record_of(rec)),
        spec_meta_stream(stack_id, recs.push(rec)) == spec_meta_stream(stack_id, recs)
            + spec_meta_line_of(rec),
        spec_data_stream(stack_id, recs.push(rec)) == spec_data_stream(stack_id, recs)
            + spec_data_record_bytes(rec),
{
    assert(recs.push(rec).drop_last() =~= recs);
    assert(recs.push(rec).last() == rec);
}

/// Sizes of the three magic chunks.
pub proof fn lemma_magic_lens(stack_id: u64)
    ensures
        spec_index_magic_bytes(stack_id).len() == 16,
        spec_data_block(stack_id).len() == 4096,
        spec_meta_magic_line(stack_id).len() == spec_meta_magic_json(stack_id).len() + 1,
{
    vstd::bytes::lemma_auto_spec_u64_to_from_le_bytes();
}

/// Size of one record's data chunk.
pub proof fn lemma_data_record_bytes_len(r: RecordInfo)
    ensures
        spec_data_record_bytes(r).len() == 20 + r.payload.len() + spec_pad_of(r.payload.len()),
{
    vstd::bytes::lemma_auto_spec_u32_to_from_le_bytes();
}

} // verus!

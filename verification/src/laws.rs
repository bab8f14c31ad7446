//! The guarantees that tie the writer and the reader together, proved over
//! the stream model the writer maintains.
//!
//! A writer that holds its invariant has, at every moment, three byte
//! streams determined by its record sequence. The lemmas here show that the
//! reader's parsers recover that record sequence from the streams: listing
//! the index file yields the index records in put order, fetching at a
//! record's offset with its cookie returns the payload byte for byte (with
//! the CRC check passing), and the meta and data files agree with the index
//! file record by record.

use vstd::prelude::*;
use vstd::utf8::encode_utf8;
use crate::data::{
    lemma_data_magic_roundtrip, lemma_record_header_roundtrip, spec_decode_record_header,
    DataMagicHeader, DATA_HEADER_MAGIC, DATA_RECORD_HEADER_MAGIC_END,
    DATA_RECORD_HEADER_MAGIC_START,
};
use crate::index::{
    lemma_index_magic_roundtrip, lemma_index_record_roundtrip, spec_encode_index_record,
    IndexMagicHeader, IndexRecord, INDEX_HEADER_MAGIC,
};
use crate::meta::{all_ws, lemma_parse_meta_canonical, spec_parse_meta};
use crate::outside::crc32c_of;
use crate::reader::{spec_fetch, spec_index_records_of, spec_list_stack};
use crate::writer::{
    lemma_data_record_bytes_len, lemma_magic_lens, lemma_stream_push, spec_data_record_bytes,
    spec_data_stream, spec_index_magic_bytes, spec_index_record_of, spec_index_stream,
    spec_meta_line_of, spec_meta_stream, spec_record_wf, spec_records_wf, RecordInfo,
};

verus! {

/// A record-wise prefix of a well-formed sequence is well formed.
proof fn lemma_records_wf_drop_last(stack_id: u64, recs: Seq<RecordInfo>)
    requires
        recs.len() > 0,
        spec_records_wf(stack_id, recs),
    ensures
        spec_records_wf(stack_id, recs.drop_last()),
{
    let pre = recs.drop_last();
    assert forall|i: int| 0 <= i < pre.len() implies {
        &&& spec_record_wf(#[trigger] pre[i])
        &&& pre[i].offset_data == spec_data_stream(stack_id, pre.take(i)).len()
        &&& pre[i].offset_meta == spec_meta_stream(stack_id, pre.take(i)).len()
    } by {
        assert(pre[i] == recs[i]);
        assert(pre.take(i) =~= recs.take(i));
        assert(spec_record_wf(recs[i]));
    }
}

/// The index stream is the magic header followed by the encoded records, and
/// listing it recovers exactly the index records, in put order.
pub proof fn lemma_list_stack_roundtrip(stack_id: u64, recs: Seq<RecordInfo>)
    ensures
        spec_index_stream(stack_id, recs).len() == 16 + 28 * recs.len(),
        spec_list_stack(
            stack_id,
            spec_index_stream(stack_id, recs).subrange(0, 16),
            spec_index_stream(stack_id, recs).skip(16),
        ) == Some(recs.map_values(|r: RecordInfo| spec_index_record_of(r))),
    decreases recs.len(),
{
    let f = |r: RecordInfo| spec_index_record_of(r);
    let s = spec_index_stream(stack_id, recs);
    let h = IndexMagicHeader { index_header_magic: INDEX_HEADER_MAGIC, stack_id };
    lemma_index_magic_roundtrip(h);
    lemma_magic_lens(stack_id);
    if recs.len() == 0 {
        assert(s == spec_index_magic_bytes(stack_id));
        assert(s.subrange(0, 16) =~= s);
        assert(s.skip(16) =~= Seq::<u8>::empty());
        assert(spec_index_records_of(s.skip(16)) =~= recs.map_values(f));
    } else {
        let pre = recs.drop_last();
        let s0 = spec_index_stream(stack_id, pre);
        let enc = spec_encode_index_record(spec_index_record_of(recs.last()));
        lemma_index_record_roundtrip(spec_index_record_of(recs.last()));
        lemma_list_stack_roundtrip(stack_id, pre);
        assert(s == s0 + enc);
        assert(s.len() == 16 + 28 * pre.len() + 28);
        assert(28 * recs.len() == 28 * pre.len() + 28) by (nonlinear_arith)
            requires recs.len() == pre.len() + 1;
        assert(s.subrange(0, 16) =~= s0.subrange(0, 16));
        let body = s.skip(16);
        let body0 = s0.skip(16);
        assert(body =~= body0 + enc);
        assert(body.len() == 28 * recs.len());
        assert(body.len() % 28 == 0 && body.len() / 28 == recs.len()) by (nonlinear_arith)
            requires body.len() == 28 * recs.len(), recs.len() >= 0;
        assert(body0.len() % 28 == 0 && body0.len() / 28 == pre.len()) by (nonlinear_arith)
            requires body0.len() == 28 * pre.len(), pre.len() >= 0;
        let parsed = spec_index_records_of(body);
        let parsed0 = spec_index_records_of(body0);
        assert(parsed =~= recs.map_values(f)) by {
            assert(parsed.len() == recs.len());
            assert forall|i: int| 0 <= i < recs.len() implies parsed[i] == recs.map_values(f)[i] by {
                assert(28 * i + 28 <= 28 * recs.len()) by (nonlinear_arith)
                    requires 0 <= i < recs.len();
                if i < pre.len() {
                    assert(28 * i + 28 <= 28 * pre.len()) by (nonlinear_arith)
                        requires 0 <= i < pre.len();
                    assert(body.subrange(28 * i, 28 * i + 28) =~= body0.subrange(
                        28 * i,
                        28 * i + 28,
                    ));
                    assert(parsed0[i] == pre.map_values(f)[i]);
                } else {
                    assert(i == pre.len());
                    assert(28 * i == body0.len()) by (nonlinear_arith)
                        requires i == pre.len(), body0.len() == 28 * pre.len();
                    assert(body.subrange(28 * i, 28 * i + 28) =~= enc);
                }
            }
        }
    }
}

/// Every stream starts with its magic chunk.
pub proof fn lemma_data_stream_prefix(stack_id: u64, recs: Seq<RecordInfo>)
    ensures
        spec_data_stream(stack_id, recs).len() >= 4096,
        spec_data_stream(stack_id, recs).subrange(0, 16) == crate::data::spec_encode_data_magic(
            DataMagicHeader { data_magic_number: DATA_HEADER_MAGIC, stack_id },
        ),
    decreases recs.len(),
{
    lemma_magic_lens(stack_id);
    lemma_data_magic_roundtrip(DataMagicHeader { data_magic_number: DATA_HEADER_MAGIC, stack_id });
    if recs.len() == 0 {
        assert(spec_data_stream(stack_id, recs).subrange(0, 16)
            =~= crate::data::spec_encode_data_magic(
            DataMagicHeader { data_magic_number: DATA_HEADER_MAGIC, stack_id },
        ));
    } else {
        lemma_data_stream_prefix(stack_id, recs.drop_last());
        assert(spec_data_stream(stack_id, recs).subrange(0, 16) =~= spec_data_stream(
            stack_id,
            recs.drop_last(),
        ).subrange(0, 16));
    }
}

/// Inside the data stream, record `i` occupies exactly its own chunk at its
/// recorded offset.
pub proof fn lemma_data_stream_lookup(stack_id: u64, recs: Seq<RecordInfo>, i: int)
    requires
        spec_records_wf(stack_id, recs),
        0 <= i < recs.len(),
    ensures
        recs[i].offset_data + spec_data_record_bytes(recs[i]).len() <= spec_data_stream(
            stack_id,
            recs,
        ).len(),
        spec_data_stream(stack_id, recs).subrange(
            recs[i].offset_data as int,
            recs[i].offset_data + spec_data_record_bytes(recs[i]).len(),
        ) == spec_data_record_bytes(recs[i]),
    decreases recs.len(),
{
    let data = spec_data_stream(stack_id, recs);
    let r = recs[i];
    let chunk = spec_data_record_bytes(r);
    if i == recs.len() - 1 {
        let pre = recs.drop_last();
        assert(recs.take(i) =~= pre);
        assert(r.offset_data == spec_data_stream(stack_id, pre).len());
        assert(data == spec_data_stream(stack_id, pre) + chunk);
        assert(data.subrange(r.offset_data as int, r.offset_data + chunk.len()) =~= chunk);
    } else {
        lemma_records_wf_drop_last(stack_id, recs);
        lemma_data_stream_lookup(stack_id, recs.drop_last(), i);
        let pre = recs.drop_last();
        assert(recs[i] == pre[i]);
        let data0 = spec_data_stream(stack_id, pre);
        assert(data == data0 + spec_data_record_bytes(recs.last()));
        assert(data.subrange(r.offset_data as int, r.offset_data + chunk.len()) =~= data0.subrange(
            r.offset_data as int,
            r.offset_data + chunk.len(),
        ));
    }
}

/// Inside the meta stream, record `i`'s meta line occupies exactly its
/// recorded slice.
pub proof fn lemma_meta_stream_lookup(stack_id: u64, recs: Seq<RecordInfo>, i: int)
    requires
        spec_records_wf(stack_id, recs),
        0 <= i < recs.len(),
    ensures
        recs[i].offset_meta + recs[i].size_meta <= spec_meta_stream(stack_id, recs).len(),
        spec_meta_stream(stack_id, recs).subrange(
            recs[i].offset_meta as int,
            recs[i].offset_meta + recs[i].size_meta,
        ) == spec_meta_line_of(recs[i]),
    decreases recs.len(),
{
    let meta = spec_meta_stream(stack_id, recs);
    let r = recs[i];
    let line = spec_meta_line_of(r);
    assert(spec_record_wf(r));
    assert(line.len() == r.size_meta);
    if i == recs.len() - 1 {
        let pre = recs.drop_last();
        assert(recs.take(i) =~= pre);
        assert(r.offset_meta == spec_meta_stream(stack_id, pre).len());
        assert(meta == spec_meta_stream(stack_id, pre) + line);
        assert(meta.subrange(r.offset_meta as int, r.offset_meta + r.size_meta) =~= line);
    } else {
        lemma_records_wf_drop_last(stack_id, recs);
        lemma_meta_stream_lookup(stack_id, recs.drop_last(), i);
        let pre = recs.drop_last();
        assert(recs[i] == pre[i]);
        let meta0 = spec_meta_stream(stack_id, pre);
        assert(meta == meta0 + spec_meta_line_of(recs.last()));
        assert(meta.subrange(r.offset_meta as int, r.offset_meta + r.size_meta) =~= meta0.subrange(
            r.offset_meta as int,
            r.offset_meta + r.size_meta,
        ));
    }
}

/// Write-then-read round trip: for every record a writer has put, fetching
/// the data stream at the record's offset with the record's cookie — with or
/// without the CRC check — returns the payload byte for byte.
pub proof fn lemma_write_fetch_roundtrip(
    stack_id: u64,
    recs: Seq<RecordInfo>,
    i: int,
    check_crc: bool,
)
    requires
        spec_records_wf(stack_id, recs),
        0 <= i < recs.len(),
    ensures
        spec_fetch(
            stack_id,
            spec_data_stream(stack_id, recs).subrange(0, 16),
            spec_data_stream(stack_id, recs).skip(recs[i].offset_data as int),
            recs[i].cookie,
            check_crc,
        ) == Some(recs[i].payload),
{
    let data = spec_data_stream(stack_id, recs);
    let r = recs[i];
    let chunk = spec_data_record_bytes(r);
    let hdr = crate::data::spec_new_record_header(r.cookie, r.size_data, crc32c_of(r.payload));
    lemma_data_stream_prefix(stack_id, recs);
    lemma_data_magic_roundtrip(DataMagicHeader { data_magic_number: DATA_HEADER_MAGIC, stack_id });
    lemma_data_stream_lookup(stack_id, recs, i);
    lemma_record_header_roundtrip(hdr);
    lemma_data_record_bytes_len(r);
    assert(spec_record_wf(r));
    let off = r.offset_data as int;
    let tail = data.skip(off);
    assert(tail.len() >= chunk.len());
    assert(tail.subrange(0, 20) =~= crate::data::spec_encode_record_header(hdr)) by {
        assert forall|k: int| 0 <= k < 20 implies tail[k] == chunk[k] by {
            assert(data.subrange(off, off + chunk.len())[k] == chunk[k]);
        }
        assert(chunk.subrange(0, 20) =~= crate::data::spec_encode_record_header(hdr));
    }
    assert(spec_decode_record_header(tail.subrange(0, 20)) == hdr);
    assert(tail.len() >= 20 + hdr.size);
    assert(tail.subrange(20, 20 + hdr.size as int) =~= r.payload) by {
        assert forall|k: int| 0 <= k < r.payload.len() implies tail[20 + k] == r.payload[k] by {
            assert(data.subrange(off, off + chunk.len())[20 + k] == chunk[20 + k]);
            assert(chunk[20 + k] == r.payload[k]);
        }
    }
    assert(crc32c_of(tail.subrange(20, 20 + hdr.size as int)) == hdr.crc);
}

/// Ordinal agreement: listing the index file yields the records in put
/// order, and for every ordinal the meta line and the data record found at
/// that ordinal's offsets carry the same cookie as the index record.
pub proof fn lemma_ordinal_agreement(stack_id: u64, recs: Seq<RecordInfo>, i: int)
    requires
        spec_records_wf(stack_id, recs),
        0 <= i < recs.len(),
    ensures
        spec_list_stack(
            stack_id,
            spec_index_stream(stack_id, recs).subrange(0, 16),
            spec_index_stream(stack_id, recs).skip(16),
        ) == Some(recs.map_values(|r: RecordInfo| spec_index_record_of(r))),
        recs.map_values(|r: RecordInfo| spec_index_record_of(r))[i].cookie == recs[i].cookie,
        spec_parse_meta(
            spec_meta_stream(stack_id, recs).subrange(
                recs[i].offset_meta as int,
                recs[i].offset_meta + recs[i].size_meta,
            ),
        ) == Some(
            (
                recs[i].create_time,
                recs[i].offset_data,
                recs[i].size_data,
                recs[i].cookie,
                encode_utf8(recs[i].filename),
                recs[i].extra,
            ),
        ),
        spec_decode_record_header(
            spec_data_stream(stack_id, recs).subrange(
                recs[i].offset_data as int,
                recs[i].offset_data + 20,
            ),
        ).cookie == recs[i].cookie,
{
    let r = recs[i];
    lemma_list_stack_roundtrip(stack_id, recs);
    assert(spec_record_wf(r));

    // The meta slice is the record's canonical line, which parses back.
    lemma_meta_stream_lookup(stack_id, recs, i);
    assert(spec_meta_line_of(r) == crate::meta::spec_meta_json(
        r.create_time,
        r.offset_data,
        r.size_data,
        r.cookie,
        r.filename,
        r.extra,
    ) + seq![0x0au8]);
    assert(all_ws(seq![0x0au8]));
    lemma_parse_meta_canonical(
        r.create_time,
        r.offset_data,
        r.size_data,
        r.cookie,
        r.filename,
        r.extra,
        seq![0x0au8],
    );

    // The data header at the record's offset carries the same cookie.
    let hdr = crate::data::spec_new_record_header(r.cookie, r.size_data, crc32c_of(r.payload));
    let data = spec_data_stream(stack_id, recs);
    let chunk = spec_data_record_bytes(r);
    lemma_data_stream_lookup(stack_id, recs, i);
    lemma_record_header_roundtrip(hdr);
    lemma_data_record_bytes_len(r);
    assert(data.subrange(r.offset_data as int, r.offset_data + 20)
        =~= crate::data::spec_encode_record_header(hdr)) by {
        assert forall|k: int| 0 <= k < 20 implies data[r.offset_data + k] == chunk[k] by {
            assert(data.subrange(r.offset_data as int, r.offset_data + chunk.len())[k]
                == chunk[k]);
        }
        assert(chunk.subrange(0, 20) =~= crate::data::spec_encode_record_header(hdr));
    }
}

/// An empty payload occupies exactly one aligned block: a successful put of
/// it records `size_data == 0` and advances the data offset by exactly 4096
/// — from the previous offset when the stack stayed open, from the reserved
/// header block when the put opened a fresh stack. With `put`'s owed-success
/// clause and the meta-line length bound this pins the whole behaviour of an
/// empty-payload put.
pub proof fn lemma_empty_payload_put(
    pre: crate::writer::StackWriter,
    post: crate::writer::StackWriter,
    out: crate::writer::PutOutput,
    filename: Seq<char>,
    extra: Seq<u8>,
    fresh_stack_id: u64,
)
    requires
        pre.wf(),
        crate::writer::spec_put_ok(pre, post, out, Seq::empty(), filename, extra, fresh_stack_id),
    ensures
        post.inner->Some_0.records@.last().size_data == 0,
        out.data_chunk@.len() == 4096,
        !pre.spec_wants_rollover(0) ==> post.inner->Some_0.data_offset
            == pre.inner->Some_0.data_offset + 4096,
        pre.spec_wants_rollover(0) ==> post.inner->Some_0.data_offset == 8192,
{
    let w = post.inner->Some_0;
    let rec = w.records@.last();
    let sid = w.stack_id;
    let rolled = pre.spec_wants_rollover(0);
    let base: Seq<RecordInfo> = if rolled {
        Seq::empty()
    } else {
        pre.inner->Some_0.records@
    };
    lemma_data_record_bytes_len(rec);
    crate::data::lemma_padding_cases(0);
    lemma_stream_push(sid, base, rec);
    lemma_magic_lens(sid);
    assert(rec.payload.len() == 0);
    assert(spec_data_record_bytes(rec).len() == 4096);
    assert(spec_data_stream(sid, w.records@).len() == spec_data_stream(sid, base).len() + 4096);
    if !rolled {
        assert(spec_data_stream(sid, base).len() == pre.inner->Some_0.data_offset);
    }
}

/// Rollover on a single giant payload: a put that opened a fresh stack for a
/// payload larger than the size bound leaves that payload alone in its
/// stack, and every later put rolls over again.
pub proof fn lemma_giant_payload_alone(
    pre: crate::writer::StackWriter,
    post: crate::writer::StackWriter,
    out: crate::writer::PutOutput,
    payload: Seq<u8>,
    filename: Seq<char>,
    extra: Seq<u8>,
    fresh_stack_id: u64,
)
    requires
        post.wf(),
        crate::writer::spec_put_ok(pre, post, out, payload, filename, extra, fresh_stack_id),
        pre.spec_wants_rollover(payload.len()),
        payload.len() > post.max_stack_bytes,
    ensures
        post.inner->Some_0.records@.len() == 1,
        post.inner->Some_0.records@[0].payload == payload,
        forall|n: nat| post.spec_wants_rollover(n),
{
    let w = post.inner->Some_0;
    let rec = w.records@.last();
    lemma_magic_lens(w.stack_id);
    lemma_stream_push(w.stack_id, Seq::empty(), rec);
    lemma_data_record_bytes_len(rec);
    assert(w.records@ =~= Seq::empty().push(rec));
    assert(spec_data_stream(w.stack_id, w.records@).len() == 4096 + spec_data_record_bytes(
        rec,
    ).len());
    assert(w.accumulated >= payload.len());
}

} // verus!

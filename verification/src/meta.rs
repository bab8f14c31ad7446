//! The meta file: a magic line, then one JSON object per record, each
//! terminated by a single newline.
//!
//! The encoding is pinned byte for byte: object keys in declaration order, no
//! whitespace, numbers in canonical decimal, strings with the conventional
//! JSON escapes (`\"`, `\\`, `\b`, `\t`, `\n`, `\f`, `\r`, and `\u00XX` for
//! the remaining control bytes), and the extra bytes as a decimal array.

use vstd::prelude::*;
use vstd::string::{StringSliceAdditionalSpecFns, StrSliceExecFns};
use vstd::utf8::{decode_utf8, encode_utf8, valid_utf8};
use crate::digits::{
    all_digits, digit_of_byte, digit_val, digits_of, digits_pad, is_digit, parse_digit_run, parse_digits,
    push_digits, push_digits_pad, val_of_digits,
};
use crate::errors::{CustomError, DecodeError};
use crate::outside::bytes_to_string;

verus! {

/// Magic number of the meta file header line.
pub const META_HEADER_MAGIC: u64 = 1314920;

/// The bytes of `{"create_time":`.
pub open spec fn lit_meta_ct() -> Seq<u8> {
    seq![0x7bu8, 0x22u8, 0x63u8, 0x72u8, 0x65u8, 0x61u8, 0x74u8, 0x65u8, 0x5fu8, 0x74u8, 0x69u8, 0x6du8, 0x65u8, 0x22u8, 0x3au8]
}

/// The bytes of `,"offset_data":`.
pub open spec fn lit_meta_od() -> Seq<u8> {
    seq![0x2cu8, 0x22u8, 0x6fu8, 0x66u8, 0x66u8, 0x73u8, 0x65u8, 0x74u8, 0x5fu8, 0x64u8, 0x61u8, 0x74u8, 0x61u8, 0x22u8, 0x3au8]
}

/// The bytes of `,"size_data":`.
pub open spec fn lit_meta_sd() -> Seq<u8> {
    seq![0x2cu8, 0x22u8, 0x73u8, 0x69u8, 0x7au8, 0x65u8, 0x5fu8, 0x64u8, 0x61u8, 0x74u8, 0x61u8, 0x22u8, 0x3au8]
}

/// The bytes of `,"cookie":`.
pub open spec fn lit_meta_ck() -> Seq<u8> {
    seq![0x2cu8, 0x22u8, 0x63u8, 0x6fu8, 0x6fu8, 0x6bu8, 0x69u8, 0x65u8, 0x22u8, 0x3au8]
}

/// The bytes of `,"filename":"`.
pub open spec fn lit_meta_fn() -> Seq<u8> {
    seq![0x2cu8, 0x22u8, 0x66u8, 0x69u8, 0x6cu8, 0x65u8, 0x6eu8, 0x61u8, 0x6du8, 0x65u8, 0x22u8, 0x3au8, 0x22u8]
}

/// The bytes of `,"extra":[` (after the closing quote of the filename).
pub open spec fn lit_meta_ex() -> Seq<u8> {
    seq![0x2cu8, 0x22u8, 0x65u8, 0x78u8, 0x74u8, 0x72u8, 0x61u8, 0x22u8, 0x3au8, 0x5bu8]
}

/// The bytes of `{"meta_magic_number":`.
pub open spec fn lit_magic_mm() -> Seq<u8> {
    seq![0x7bu8, 0x22u8, 0x6du8, 0x65u8, 0x74u8, 0x61u8, 0x5fu8, 0x6du8, 0x61u8, 0x67u8, 0x69u8, 0x63u8, 0x5fu8, 0x6eu8, 0x75u8, 0x6du8, 0x62u8, 0x65u8, 0x72u8, 0x22u8, 0x3au8]
}

/// The bytes of `,"stack_id":`.
pub open spec fn lit_magic_sid() -> Seq<u8> {
    seq![0x2cu8, 0x22u8, 0x73u8, 0x74u8, 0x61u8, 0x63u8, 0x6bu8, 0x5fu8, 0x69u8, 0x64u8, 0x22u8, 0x3au8]
}

/// How one byte of a string appears inside a JSON string literal.
pub open spec fn json_escape_byte(b: u8) -> Seq<u8> {
    if b == 0x22 {
        seq![0x5cu8, 0x22u8]
    } else if b == 0x5c {
        seq![0x5cu8, 0x5cu8]
    } else if b == 0x08 {
        seq![0x5cu8, 0x62u8]
    } else if b == 0x09 {
        seq![0x5cu8, 0x74u8]
    } else if b == 0x0a {
        seq![0x5cu8, 0x6eu8]
    } else if b == 0x0c {
        seq![0x5cu8, 0x66u8]
    } else if b == 0x0d {
        seq![0x5cu8, 0x72u8]
    } else if b < 0x20 {
        seq![0x5cu8, 0x75u8, 0x30u8, 0x30u8] + digits_pad(b as nat, 16, 2)
    } else {
        seq![b]
    }
}

/// A whole string's bytes inside a JSON string literal.
pub open spec fn json_escape(s: Seq<u8>) -> Seq<u8>
    decreases s.len(),
{
    if s.len() == 0 {
        Seq::empty()
    } else {
        json_escape_byte(s[0]) + json_escape(s.drop_first())
    }
}

/// A byte string as a JSON array of decimal numbers, without the brackets.
pub open spec fn json_byte_array(s: Seq<u8>) -> Seq<u8>
    decreases s.len(),
{
    if s.len() == 0 {
        Seq::empty()
    } else if s.len() == 1 {
        digits_of(s[0] as nat, 10)
    } else {
        digits_of(s[0] as nat, 10) + seq![0x2cu8] + json_byte_array(s.drop_first())
    }
}

/// The canonical JSON bytes of a meta record (newline not included).
pub open spec fn spec_meta_json(
    create_time: u64,
    offset_data: u64,
    size_data: u32,
    cookie: u32,
    filename: Seq<char>,
    extra: Seq<u8>,
) -> Seq<u8> {
    lit_meta_ct() + digits_of(create_time as nat, 10) + lit_meta_od() + digits_of(
        offset_data as nat,
        10,
    ) + lit_meta_sd() + digits_of(size_data as nat, 10) + lit_meta_ck() + digits_of(
        cookie as nat,
        10,
    ) + lit_meta_fn() + json_escape(encode_utf8(filename)) + seq![0x22u8] + lit_meta_ex()
        + json_byte_array(extra) + seq![0x5du8, 0x7du8]
}

/// The canonical JSON bytes of a meta magic header (newline not included).
pub open spec fn spec_meta_magic_json(stack_id: u64) -> Seq<u8> {
    lit_magic_mm() + digits_of(META_HEADER_MAGIC as nat, 10) + lit_magic_sid() + digits_of(
        stack_id as nat,
        10,
    ) + seq![0x7du8]
}

/// The magic line at the start of every meta file.
#[derive(Debug)]
pub struct MetaMagicHeader {
    /// Holds META_HEADER_MAGIC in every well-formed file.
    pub meta_magic_number: u64,
    /// The stack this file belongs to.
    pub stack_id: u64,
}

impl MetaMagicHeader {
    /// A meta magic header for the given stack.
    pub fn new(stack_id: u64) -> (r: Self)
        ensures
            r.meta_magic_number == META_HEADER_MAGIC,
            r.stack_id == stack_id,
    {
        MetaMagicHeader { meta_magic_number: META_HEADER_MAGIC, stack_id }
    }

    /// The magic line as written: JSON plus the terminating newline.
    pub fn encode_line(&self) -> (r: Vec<u8>)
        requires
            self.meta_magic_number == META_HEADER_MAGIC,
        ensures
            r@ == spec_meta_magic_json(self.stack_id) + seq![0x0au8],
    {
        let arr_mm: [u8; 21] = [0x7b, 0x22, 0x6d, 0x65, 0x74, 0x61, 0x5f, 0x6d, 0x61, 0x67, 0x69,
            0x63, 0x5f, 0x6e, 0x75, 0x6d, 0x62, 0x65, 0x72, 0x22, 0x3a];
        let arr_sid: [u8; 12] = [0x2c, 0x22, 0x73, 0x74, 0x61, 0x63, 0x6b, 0x5f, 0x69, 0x64, 0x22,
            0x3a];
        let mut out: Vec<u8> = Vec::new();
        push_slice(&mut out, arr_mm.as_slice());
        push_digits(self.meta_magic_number, 10, &mut out);
        push_slice(&mut out, arr_sid.as_slice());
        push_digits(self.stack_id, 10, &mut out);
        out.push(0x7d);
        out.push(0x0a);
        proof {
            assert(arr_mm@ =~= lit_magic_mm());
            assert(arr_sid@ =~= lit_magic_sid());
            assert(out@ =~= spec_meta_magic_json(self.stack_id) + seq![0x0au8]);
        }
        out
    }

    /// Size of the magic line, newline included.
    pub fn size(&self) -> (r: usize)
        requires
            self.meta_magic_number == META_HEADER_MAGIC,
        ensures
            r == spec_meta_magic_json(self.stack_id).len() + 1,
    {
        self.encode_line().len()
    }
}

/// One meta record: the user-visible attributes of a data record.
#[derive(Debug)]
pub struct MetaRecord {
    /// Unix seconds at write time.
    pub create_time: u64,
    /// Byte offset of the data record inside the data file.
    pub offset_data: u64,
    /// Payload length in bytes.
    pub size_data: u32,
    /// The random per-record cookie.
    pub cookie: u32,
    /// The user's file name.
    pub filename: String,
    /// Opaque extra bytes.
    pub extra: Vec<u8>,
}

impl PartialEq for MetaRecord {
    /// Equality leaves the filename out: two records agree when their
    /// numeric fields and extra bytes agree.
    fn eq(&self, other: &MetaRecord) -> bool {
        self.create_time == other.create_time && self.offset_data == other.offset_data
            && self.cookie == other.cookie && self.size_data == other.size_data && {
            let a: &Vec<u8> = &self.extra;
            let b: &Vec<u8> = &other.extra;
            vec_u8_eq(a, b)
        }
    }
}

impl vstd::std_specs::cmp::PartialEqSpecImpl for MetaRecord {
    open spec fn obeys_eq_spec() -> bool {
        true
    }

    open spec fn eq_spec(&self, other: &MetaRecord) -> bool {
        self.create_time == other.create_time && self.offset_data == other.offset_data
            && self.cookie == other.cookie && self.size_data == other.size_data && self.extra@
            == other.extra@
    }
}

/// Byte-vector equality.
pub fn vec_u8_eq(a: &Vec<u8>, b: &Vec<u8>) -> (r: bool)
    ensures
        r == (a@ == b@),
{
    if a.len() != b.len() {
        return false;
    }
    let mut i: usize = 0;
    while i < a.len()
        invariant
            0 <= i <= a@.len(),
            a@.len() == b@.len(),
            forall|j: int| 0 <= j < i ==> a@[j] == b@[j],
        decreases a@.len() - i,
    {
        if a[i] != b[i] {
            return false;
        }
        i = i + 1;
    }
    proof {
        assert(a@ =~= b@);
    }
    true
}

impl MetaRecord {
    /// The canonical JSON bytes of this record.
    pub open spec fn spec_json(&self) -> Seq<u8> {
        spec_meta_json(
            self.create_time,
            self.offset_data,
            self.size_data,
            self.cookie,
            self.filename@,
            self.extra@,
        )
    }

    /// A record for one write.
    pub fn new(
        create_time: u64,
        offset_data: u64,
        cookie: u32,
        size_data: u32,
        filename: String,
        extra: Vec<u8>,
    ) -> (r: Self)
        ensures
            r.create_time == create_time,
            r.offset_data == offset_data,
            r.cookie == cookie,
            r.size_data == size_data,
            r.filename == filename,
            r.extra == extra,
    {
        MetaRecord { create_time, offset_data, cookie, size_data, filename, extra }
    }

    /// The record as written: JSON plus the terminating newline.
    pub fn encode_line(&self) -> (r: Vec<u8>)
        ensures
            r@ == self.spec_json() + seq![0x0au8],
    {
        let arr_ct: [u8; 15] = [0x7b, 0x22, 0x63, 0x72, 0x65, 0x61, 0x74, 0x65, 0x5f, 0x74, 0x69,
            0x6d, 0x65, 0x22, 0x3a];
        let arr_od: [u8; 15] = [0x2c, 0x22, 0x6f, 0x66, 0x66, 0x73, 0x65, 0x74, 0x5f, 0x64, 0x61,
            0x74, 0x61, 0x22, 0x3a];
        let arr_sd: [u8; 13] = [0x2c, 0x22, 0x73, 0x69, 0x7a, 0x65, 0x5f, 0x64, 0x61, 0x74, 0x61,
            0x22, 0x3a];
        let arr_ck: [u8; 10] = [0x2c, 0x22, 0x63, 0x6f, 0x6f, 0x6b, 0x69, 0x65, 0x22, 0x3a];
        let arr_fn: [u8; 13] = [0x2c, 0x22, 0x66, 0x69, 0x6c, 0x65, 0x6e, 0x61, 0x6d, 0x65, 0x22,
            0x3a, 0x22];
        let arr_ex: [u8; 10] = [0x2c, 0x22, 0x65, 0x78, 0x74, 0x72, 0x61, 0x22, 0x3a, 0x5b];
        let mut out: Vec<u8> = Vec::new();
        push_slice(&mut out, arr_ct.as_slice());
        push_digits(self.create_time, 10, &mut out);
        push_slice(&mut out, arr_od.as_slice());
        push_digits(self.offset_data, 10, &mut out);
        push_slice(&mut out, arr_sd.as_slice());
        push_digits(self.size_data as u64, 10, &mut out);
        push_slice(&mut out, arr_ck.as_slice());
        push_digits(self.cookie as u64, 10, &mut out);
        push_slice(&mut out, arr_fn.as_slice());
        push_json_escape(&mut out, self.filename.as_str().as_bytes());
        out.push(0x22);
        push_slice(&mut out, arr_ex.as_slice());
        push_byte_array(&mut out, &self.extra);
        out.push(0x5d);
        out.push(0x7d);
        out.push(0x0a);
        proof {
            assert(arr_ct@ =~= lit_meta_ct());
            assert(arr_od@ =~= lit_meta_od());
            assert(arr_sd@ =~= lit_meta_sd());
            assert(arr_ck@ =~= lit_meta_ck());
            assert(arr_fn@ =~= lit_meta_fn());
            assert(arr_ex@ =~= lit_meta_ex());
            assert(out@ =~= self.spec_json() + seq![0x0au8]);
        }
        out
    }

    /// Serialized size of the record, newline included.
    pub fn size(&self) -> (r: usize)
        ensures
            r == self.spec_json().len() + 1,
    {
        self.encode_line().len()
    }
}

/// Append a byte slice to a vector.
pub fn push_slice(out: &mut Vec<u8>, s: &[u8])
    ensures
        final(out)@ == old(out)@ + s@,
{
    let mut i: usize = 0;
    let ghost mid = out@;
    while i < s.len()
        invariant
            0 <= i <= s@.len(),
            out@ == mid + s@.subrange(0, i as int),
        decreases s@.len() - i,
    {
        out.push(s[i]);
        i = i + 1;
        proof {
            assert(out@ =~= mid + s@.subrange(0, i as int));
        }
    }
    proof {
        assert(s@.subrange(0, s@.len() as int) =~= s@);
    }
}

/// Append the JSON escape of a string's bytes.
#[verifier::loop_isolation(false)]
#[verifier::rlimit(50)]
pub fn push_json_escape(out: &mut Vec<u8>, s: &[u8])
    ensures
        final(out)@ == old(out)@ + json_escape(s@),
{
    let mut i: usize = 0;
    let ghost mid = out@;
    while i < s.len()
        invariant
            0 <= i <= s@.len(),
            out@ == mid + json_escape(s@.subrange(0, i as int)),
        decreases s@.len() - i,
    {
        let b = s[i];
        if b == 0x22 {
            out.push(0x5c);
            out.push(0x22);
        } else if b == 0x5c {
            out.push(0x5c);
            out.push(0x5c);
        } else if b == 0x08 {
            out.push(0x5c);
            out.push(0x62);
        } else if b == 0x09 {
            out.push(0x5c);
            out.push(0x74);
        } else if b == 0x0a {
            out.push(0x5c);
            out.push(0x6e);
        } else if b == 0x0c {
            out.push(0x5c);
            out.push(0x66);
        } else if b == 0x0d {
            out.push(0x5c);
            out.push(0x72);
        } else if b < 0x20 {
            out.push(0x5c);
            out.push(0x75);
            out.push(0x30);
            out.push(0x30);
            push_digits_pad(b as u64, 16, 2, out);
        } else {
            out.push(b);
        }
        i = i + 1;
        proof {
            lemma_json_escape_snoc(s@.subrange(0, i as int));
            assert(s@.subrange(0, i as int).drop_last() =~= s@.subrange(0, i as int - 1));
            assert(out@ =~= mid + json_escape(s@.subrange(0, i as int)));
        }
    }
    proof {
        assert(s@.subrange(0, s@.len() as int) =~= s@);
    }
}

/// Unrolling `json_escape` from the back.
pub proof fn lemma_json_escape_snoc(s: Seq<u8>)
    requires
        s.len() > 0,
    ensures
        json_escape(s) == json_escape(s.drop_last()) + json_escape_byte(s.last()),
    decreases s.len(),
{
    if s.len() == 1 {
        assert(s.drop_first() =~= Seq::<u8>::empty());
        assert(s.drop_last() =~= Seq::<u8>::empty());
        assert(json_escape(s) =~= json_escape_byte(s[0]));
        assert(json_escape(s.drop_last()) + json_escape_byte(s.last()) =~= json_escape_byte(s[0]));
    } else {
        lemma_json_escape_snoc(s.drop_first());
        assert(s.drop_first().drop_last() =~= s.drop_last().drop_first());
        assert(s.drop_first().last() == s.last());
        assert(s.drop_last()[0] == s[0]);
        assert(s.drop_last().len() > 0);
        assert(json_escape(s.drop_last()) == json_escape_byte(s[0]) + json_escape(
            s.drop_last().drop_first(),
        ));
        assert(json_escape(s) =~= json_escape(s.drop_last()) + json_escape_byte(s.last()));
    }
}

/// Unrolling `json_byte_array` from the back.
pub proof fn lemma_byte_array_snoc(s: Seq<u8>)
    requires
        s.len() > 0,
    ensures
        s.len() == 1 ==> json_byte_array(s) == digits_of(s.last() as nat, 10),
        s.len() > 1 ==> json_byte_array(s) == json_byte_array(s.drop_last()) + seq![0x2cu8]
            + digits_of(s.last() as nat, 10),
    decreases s.len(),
{
    if s.len() > 1 {
        lemma_byte_array_snoc(s.drop_first());
        assert(s.drop_first().drop_last() =~= s.drop_last().drop_first());
        assert(s.drop_first().last() == s.last());
        if s.len() == 2 {
            assert(s.drop_last() =~= seq![s[0]]);
            assert(json_byte_array(s) =~= json_byte_array(s.drop_last()) + seq![0x2cu8]
                + digits_of(s.last() as nat, 10));
        } else {
            assert(s.drop_last().len() > 1);
            assert(s.drop_last()[0] == s[0]);
            assert(json_byte_array(s.drop_last()) == digits_of(s[0] as nat, 10) + seq![0x2cu8]
                + json_byte_array(s.drop_last().drop_first()));
            assert(json_byte_array(s) =~= json_byte_array(s.drop_last()) + seq![0x2cu8]
                + digits_of(s.last() as nat, 10));
        }
    }
}

/// Whether `lit` occupies `b` starting at `i`.
pub open spec fn match_lit(b: Seq<u8>, i: int, lit: Seq<u8>) -> bool {
    0 <= i && i + lit.len() <= b.len() && b.subrange(i, i + lit.len()) == lit
}

/// End of the decimal digit run starting at `i`.
pub open spec fn take_digits(b: Seq<u8>, i: int) -> int
    decreases b.len() - i,
    when 0 <= i <= b.len()
{
    if i >= b.len() {
        i
    } else if is_digit(b[i], 10) {
        take_digits(b, i + 1)
    } else {
        i
    }
}

/// What `take_digits` returns: the least non-digit position at or after `i`.
pub proof fn lemma_take_digits_bounds(b: Seq<u8>, i: int)
    requires
        0 <= i <= b.len(),
    ensures
        i <= take_digits(b, i) <= b.len(),
        forall|k: int| i <= k < take_digits(b, i) ==> is_digit(#[trigger] b[k], 10),
        take_digits(b, i) < b.len() ==> !is_digit(b[take_digits(b, i)], 10),
    decreases b.len() - i,
{
    if i < b.len() && is_digit(b[i], 10) {
        lemma_take_digits_bounds(b, i + 1);
    }
}

/// A digit run followed by a non-digit stops `take_digits` exactly there.
pub proof fn lemma_take_digits_exact(b: Seq<u8>, i: int, j: int)
    requires
        0 <= i <= j < b.len(),
        forall|k: int| i <= k < j ==> is_digit(#[trigger] b[k], 10),
        !is_digit(b[j], 10),
    ensures
        take_digits(b, i) == j,
    decreases j - i,
{
    if i < j {
        lemma_take_digits_exact(b, i + 1, j);
    }
}

/// One step of reading a JSON string literal body: `None`, or the decoded
/// bytes together with the position just past the closing quote.
pub open spec fn scan_string(b: Seq<u8>, i: int) -> Option<(Seq<u8>, int)>
    decreases b.len() - i,
    when 0 <= i
{
    if i >= b.len() {
        None
    } else if b[i] == 0x22 {
        Some((Seq::empty(), i + 1))
    } else if b[i] == 0x5c {
        if i + 1 >= b.len() {
            None
        } else {
            let e = b[i + 1];
            if e == 0x22 || e == 0x5c {
                cons_scan(e, scan_string(b, i + 2))
            } else if e == 0x62 {
                cons_scan(0x08, scan_string(b, i + 2))
            } else if e == 0x74 {
                cons_scan(0x09, scan_string(b, i + 2))
            } else if e == 0x6e {
                cons_scan(0x0a, scan_string(b, i + 2))
            } else if e == 0x66 {
                cons_scan(0x0c, scan_string(b, i + 2))
            } else if e == 0x72 {
                cons_scan(0x0d, scan_string(b, i + 2))
            } else if e == 0x75 {
                if i + 6 > b.len() {
                    None
                } else if b[i + 2] == 0x30 && b[i + 3] == 0x30 && is_digit(b[i + 4], 16)
                    && is_digit(b[i + 5], 16) {
                    cons_scan(
                        (digit_val(b[i + 4]) * 16 + digit_val(b[i + 5])) as u8,
                        scan_string(b, i + 6),
                    )
                } else {
                    None
                }
            } else {
                None
            }
        }
    } else if b[i] < 0x20 {
        None
    } else {
        cons_scan(b[i], scan_string(b, i + 1))
    }
}

/// Prepend one decoded byte to a scan result.
pub open spec fn cons_scan(c: u8, rest: Option<(Seq<u8>, int)>) -> Option<(Seq<u8>, int)> {
    match rest {
        None => None,
        Some((s, e)) => Some((seq![c] + s, e)),
    }
}

/// Reading a JSON byte array body: `None`, or the bytes together with the
/// position just past the closing bracket.
pub open spec fn scan_array(b: Seq<u8>, i: int) -> Option<(Seq<u8>, int)> {
    if 0 <= i < b.len() && b[i] == 0x5d {
        Some((Seq::empty(), i + 1))
    } else {
        scan_elems(b, i)
    }
}

/// Reading one or more comma-separated decimal bytes, ending at `]`.
pub open spec fn scan_elems(b: Seq<u8>, i: int) -> Option<(Seq<u8>, int)>
    decreases b.len() - i,
    when 0 <= i <= b.len()
    via scan_elems_decreases
{
    let j = take_digits(b, i);
    if j == i {
        None
    } else {
        match parse_digits(b.subrange(i, j), 10) {
            None => None,
            Some(v) => if v > 255 {
                None
            } else if j >= b.len() {
                None
            } else if b[j] == 0x5d {
                Some((seq![v as u8], j + 1))
            } else if b[j] == 0x2c {
                cons_scan(v as u8, scan_elems(b, j + 1))
            } else {
                None
            },
        }
    }
}

#[via_fn]
proof fn scan_elems_decreases(b: Seq<u8>, i: int) {
    if 0 <= i <= b.len() {
        lemma_take_digits_bounds(b, i);
    }
}

/// Whether every byte of `s` is JSON whitespace.
pub open spec fn all_ws(s: Seq<u8>) -> bool {
    forall|i: int|
        0 <= i < s.len() ==> (#[trigger] s[i] == 0x20 || s[i] == 0x09 || s[i] == 0x0a || s[i]
            == 0x0d)
}

/// What a whole meta line parses to: the canonical object grammar, fields in
/// order, with any run of trailing whitespace allowed. The filename comes
/// back as its still-encoded UTF-8 bytes.
pub open spec fn spec_parse_meta(b: Seq<u8>) -> Option<(u64, u64, u32, u32, Seq<u8>, Seq<u8>)> {
    if !match_lit(b, 0, lit_meta_ct()) {
        None
    } else {
        let p0 = lit_meta_ct().len() as int;
        let e0 = take_digits(b, p0);
        match parse_digits(b.subrange(p0, e0), 10) {
            None => None,
            Some(ct) => if !match_lit(b, e0, lit_meta_od()) {
                None
            } else {
                let p1 = e0 + lit_meta_od().len();
                let e1 = take_digits(b, p1);
                match parse_digits(b.subrange(p1, e1), 10) {
                    None => None,
                    Some(od) => if !match_lit(b, e1, lit_meta_sd()) {
                        None
                    } else {
                        let p2 = e1 + lit_meta_sd().len();
                        let e2 = take_digits(b, p2);
                        match parse_digits(b.subrange(p2, e2), 10) {
                            None => None,
                            Some(sd) => if sd > u32::MAX || !match_lit(b, e2, lit_meta_ck()) {
                                None
                            } else {
                                let p3 = e2 + lit_meta_ck().len();
                                let e3 = take_digits(b, p3);
                                match parse_digits(b.subrange(p3, e3), 10) {
                                    None => None,
                                    Some(ck) => if ck > u32::MAX || !match_lit(
                                        b,
                                        e3,
                                        lit_meta_fn(),
                                    ) {
                                        None
                                    } else {
                                        let p4 = e3 + lit_meta_fn().len();
                                        match scan_string(b, p4) {
                                            None => None,
                                            Some((fb, p5)) => if !match_lit(
                                                b,
                                                p5,
                                                lit_meta_ex(),
                                            ) {
                                                None
                                            } else {
                                                let p6 = p5 + lit_meta_ex().len();
                                                match scan_array(b, p6) {
                                                    None => None,
                                                    Some((eb, p7)) => if p7 < b.len() && b[p7]
                                                        == 0x7d && all_ws(
                                                        b.subrange(p7 + 1, b.len() as int),
                                                    ) {
                                                        Some(
                                                            (
                                                                ct,
                                                                od,
                                                                sd as u32,
                                                                ck as u32,
                                                                fb,
                                                                eb,
                                                            ),
                                                        )
                                                    } else {
                                                        None
                                                    },
                                                }
                                            },
                                        }
                                    },
                                }
                            },
                        }
                    },
                }
            },
        }
    }
}

/// Append a byte string as a JSON array body.
#[verifier::loop_isolation(false)]
pub fn push_byte_array(out: &mut Vec<u8>, s: &Vec<u8>)
    ensures
        final(out)@ == old(out)@ + json_byte_array(s@),
{
    let mut i: usize = 0;
    let ghost mid = out@;
    while i < s.len()
        invariant
            0 <= i <= s@.len(),
            out@ == mid + json_byte_array(s@.subrange(0, i as int)),
        decreases s@.len() - i,
    {
        if i > 0 {
            out.push(0x2c);
        }
        push_digits(s[i] as u64, 10, out);
        i = i + 1;
        proof {
            lemma_byte_array_snoc(s@.subrange(0, i as int));
            assert(s@.subrange(0, i as int).drop_last() =~= s@.subrange(0, i as int - 1));
            assert(out@ =~= mid + json_byte_array(s@.subrange(0, i as int)));
        }
    }
    proof {
        assert(s@.subrange(0, s@.len() as int) =~= s@);
    }
}

/// Prepend already-decoded bytes to a scan result.
pub open spec fn cons_all(a: Seq<u8>, rest: Option<(Seq<u8>, int)>) -> Option<(Seq<u8>, int)> {
    match rest {
        None => None,
        Some((s, e)) => Some((a + s, e)),
    }
}

proof fn lemma_cons_all_push(a: Seq<u8>, c: u8, rest: Option<(Seq<u8>, int)>)
    ensures
        cons_all(a, cons_scan(c, rest)) == cons_all(a.push(c), rest),
{
    match rest {
        None => {},
        Some((s, e)) => {
            assert(a + (seq![c] + s) =~= a.push(c) + s);
        },
    }
}

/// Whether `lit` sits in `b` at `pos`; on success the position after it.
#[verifier::loop_isolation(false)]
fn eat_lit(b: &[u8], pos: usize, lit: &[u8]) -> (r: Option<usize>)
    requires
        pos <= b@.len(),
    ensures
        match r {
            Some(p) => match_lit(b@, pos as int, lit@) && p == pos + lit@.len(),
            None => !match_lit(b@, pos as int, lit@),
        },
{
    if b.len() - pos < lit.len() {
        return None;
    }
    let mut i: usize = 0;
    while i < lit.len()
        invariant
            0 <= i <= lit@.len(),
            forall|j: int| 0 <= j < i ==> b@[pos + j] == lit@[j],
        decreases lit@.len() - i,
    {
        if b[pos + i] != lit[i] {
            proof {
                let sub = b@.subrange(pos as int, pos + lit@.len());
                assert(sub[i as int] != lit@[i as int]);
            }
            return None;
        }
        i = i + 1;
    }
    proof {
        assert(b@.subrange(pos as int, pos + lit@.len()) =~= lit@);
    }
    Some(pos + lit.len())
}

/// Scan the decimal digit run at `pos` and parse it.
#[verifier::loop_isolation(false)]
fn scan_dec(b: &[u8], pos: usize) -> (r: (Option<u64>, usize))
    requires
        pos <= b@.len(),
    ensures
        r.1 == take_digits(b@, pos as int),
        pos <= r.1 <= b@.len(),
        r.0 == parse_digits(b@.subrange(pos as int, r.1 as int), 10),
{
    proof {
        lemma_take_digits_bounds(b@, pos as int);
    }
    let mut j: usize = pos;
    while j < b.len() && 0x30 <= b[j] && b[j] <= 0x39
        invariant
            pos <= j <= b@.len(),
            forall|k: int| pos <= k < j ==> is_digit(#[trigger] b@[k], 10),
        decreases b@.len() - j,
    {
        j = j + 1;
    }
    proof {
        if j < b@.len() {
            lemma_take_digits_exact(b@, pos as int, j as int);
        } else {
            let td = take_digits(b@, pos as int);
            if td < j {
                assert(is_digit(b@[td as int], 10));
            }
        }
    }
    (parse_digit_run(vstd::slice::slice_subrange(b, pos, j), 10), j)
}

/// Scan a JSON string literal body starting at `pos`.
#[verifier::loop_isolation(false)]
fn scan_string_exec(b: &[u8], pos: usize) -> (r: Option<(Vec<u8>, usize)>)
    requires
        pos <= b@.len(),
    ensures
        match r {
            Some(t) => scan_string(b@, pos as int) == Some((t.0@, t.1 as int)) && pos < t.1
                <= b@.len(),
            None => scan_string(b@, pos as int) is None,
        },
{
    let mut acc: Vec<u8> = Vec::new();
    let mut cur: usize = pos;
    loop
        invariant
            pos <= cur <= b@.len(),
            scan_string(b@, pos as int) == cons_all(acc@, scan_string(b@, cur as int)),
        decreases b@.len() - cur,
    {
        if cur >= b.len() {
            return None;
        }
        let c = b[cur];
        if c == 0x22 {
            proof {
                assert(acc@ + Seq::<u8>::empty() =~= acc@);
            }
            return Some((acc, cur + 1));
        }
        if c == 0x5c {
            if cur + 1 >= b.len() {
                return None;
            }
            let e = b[cur + 1];
            let ghost oldcur = cur as int;
            let ghost oldacc = acc@;
            if e == 0x22 || e == 0x5c || e == 0x62 || e == 0x74 || e == 0x6e || e == 0x66 || e
                == 0x72 {
                let decoded: u8 = if e == 0x22 || e == 0x5c {
                    e
                } else if e == 0x62 {
                    0x08
                } else if e == 0x74 {
                    0x09
                } else if e == 0x6e {
                    0x0a
                } else if e == 0x66 {
                    0x0c
                } else {
                    0x0d
                };
                acc.push(decoded);
                cur = cur + 2;
                proof {
                    assert(scan_string(b@, oldcur) == cons_scan(
                        decoded,
                        scan_string(b@, oldcur + 2),
                    ));
                    lemma_cons_all_push(oldacc, decoded, scan_string(b@, cur as int));
                }
            } else if e == 0x75 {
                if b.len() - cur < 6 {
                    return None;
                }
                if !(b[cur + 2] == 0x30 && b[cur + 3] == 0x30) {
                    return None;
                }
                let d1 = match digit_of_byte(b[cur + 4], 16) {
                    Some(d) => d,
                    None => {
                        return None;
                    },
                };
                let d2 = match digit_of_byte(b[cur + 5], 16) {
                    Some(d) => d,
                    None => {
                        return None;
                    },
                };
                let decoded: u8 = d1 * 16 + d2;
                acc.push(decoded);
                cur = cur + 6;
                proof {
                    assert(scan_string(b@, oldcur) == cons_scan(
                        decoded,
                        scan_string(b@, oldcur + 6),
                    ));
                    lemma_cons_all_push(oldacc, decoded, scan_string(b@, cur as int));
                }
            } else {
                return None;
            }
        } else if c < 0x20 {
            return None;
        } else {
            let ghost oldcur = cur as int;
            let ghost oldacc = acc@;
            acc.push(c);
            cur = cur + 1;
            proof {
                assert(scan_string(b@, oldcur) == cons_scan(c, scan_string(b@, oldcur + 1)));
                lemma_cons_all_push(oldacc, c, scan_string(b@, cur as int));
            }
        }
    }
}

/// Scan a JSON byte array body starting at `pos` (just after the `[`).
#[verifier::loop_isolation(false)]
fn scan_array_exec(b: &[u8], pos: usize) -> (r: Option<(Vec<u8>, usize)>)
    requires
        pos <= b@.len(),
    ensures
        match r {
            Some(t) => scan_array(b@, pos as int) == Some((t.0@, t.1 as int)) && pos < t.1
                <= b@.len(),
            None => scan_array(b@, pos as int) is None,
        },
{
    if pos < b.len() && b[pos] == 0x5d {
        let empty: Vec<u8> = Vec::new();
        return Some((empty, pos + 1));
    }
    let mut acc: Vec<u8> = Vec::new();
    let mut cur: usize = pos;
    loop
        invariant
            pos <= cur <= b@.len(),
            scan_elems(b@, pos as int) == cons_all(acc@, scan_elems(b@, cur as int)),
            scan_array(b@, pos as int) == scan_elems(b@, pos as int),
        decreases b@.len() - cur,
    {
        let (ov, j) = scan_dec(b, cur);
        let v = match ov {
            Some(v) => v,
            None => {
                return None;
            },
        };
        proof {
            assert(j != cur);
        }
        if v > 255 {
            return None;
        }
        if j >= b.len() {
            return None;
        }
        let ghost oldcur = cur as int;
        let ghost oldacc = acc@;
        if b[j] == 0x5d {
            acc.push(v as u8);
            proof {
                assert(scan_elems(b@, oldcur) == Some((seq![v as u8], j + 1)));
                assert(oldacc + seq![v as u8] =~= oldacc.push(v as u8));
            }
            return Some((acc, j + 1));
        }
        if b[j] != 0x2c {
            return None;
        }
        acc.push(v as u8);
        cur = j + 1;
        proof {
            assert(scan_elems(b@, oldcur) == cons_scan(v as u8, scan_elems(b@, cur as int)));
            lemma_cons_all_push(oldacc, v as u8, scan_elems(b@, cur as int));
        }
    }
}

impl MetaRecord {
    /// Decode a meta line. Succeeds exactly on the canonical grammar with a
    /// filename in valid UTF-8; trailing whitespace (the record's newline) is
    /// accepted.
    #[verifier::loop_isolation(false)]
    pub fn new_from_bytes(data: &[u8]) -> (r: Result<MetaRecord, DecodeError>)
        ensures
            match r {
                Ok(m) => {
                    &&& spec_parse_meta(data@) matches Some(t)
                    &&& m.create_time == t.0
                    &&& m.offset_data == t.1
                    &&& m.size_data == t.2
                    &&& m.cookie == t.3
                    &&& valid_utf8(t.4)
                    &&& m.filename@ == decode_utf8(t.4)
                    &&& m.extra@ == t.5
                },
                Err(e) => spec_parse_meta(data@) is None || (spec_parse_meta(data@) matches Some(t)
                    && !valid_utf8(t.4)),
            },
    {
        let arr_ct: [u8; 15] = [0x7b, 0x22, 0x63, 0x72, 0x65, 0x61, 0x74, 0x65, 0x5f, 0x74, 0x69,
            0x6d, 0x65, 0x22, 0x3a];
        let arr_od: [u8; 15] = [0x2c, 0x22, 0x6f, 0x66, 0x66, 0x73, 0x65, 0x74, 0x5f, 0x64, 0x61,
            0x74, 0x61, 0x22, 0x3a];
        let arr_sd: [u8; 13] = [0x2c, 0x22, 0x73, 0x69, 0x7a, 0x65, 0x5f, 0x64, 0x61, 0x74, 0x61,
            0x22, 0x3a];
        let arr_ck: [u8; 10] = [0x2c, 0x22, 0x63, 0x6f, 0x6f, 0x6b, 0x69, 0x65, 0x22, 0x3a];
        let arr_fn: [u8; 13] = [0x2c, 0x22, 0x66, 0x69, 0x6c, 0x65, 0x6e, 0x61, 0x6d, 0x65, 0x22,
            0x3a, 0x22];
        let arr_ex: [u8; 10] = [0x2c, 0x22, 0x65, 0x78, 0x74, 0x72, 0x61, 0x22, 0x3a, 0x5b];
        proof {
            assert(arr_ct@ =~= lit_meta_ct());
            assert(arr_od@ =~= lit_meta_od());
            assert(arr_sd@ =~= lit_meta_sd());
            assert(arr_ck@ =~= lit_meta_ck());
            assert(arr_fn@ =~= lit_meta_fn());
            assert(arr_ex@ =~= lit_meta_ex());
        }
        let p0 = match eat_lit(data, 0, arr_ct.as_slice()) {
            Some(p) => p,
            None => {
                return Err(meta_shape_error());
            },
        };
        let (ov, e0) = scan_dec(data, p0);
        let create_time = match ov {
            Some(v) => v,
            None => {
                return Err(meta_shape_error());
            },
        };
        let p1 = match eat_lit(data, e0, arr_od.as_slice()) {
            Some(p) => p,
            None => {
                return Err(meta_shape_error());
            },
        };
        let (ov, e1) = scan_dec(data, p1);
        let offset_data = match ov {
            Some(v) => v,
            None => {
                return Err(meta_shape_error());
            },
        };
        let p2 = match eat_lit(data, e1, arr_sd.as_slice()) {
            Some(p) => p,
            None => {
                return Err(meta_shape_error());
            },
        };
        let (ov, e2) = scan_dec(data, p2);
        let size_data = match ov {
            Some(v) => v,
            None => {
                return Err(meta_shape_error());
            },
        };
        if size_data > 0xffffffff {
            return Err(meta_shape_error());
        }
        let p3 = match eat_lit(data, e2, arr_ck.as_slice()) {
            Some(p) => p,
            None => {
                return Err(meta_shape_error());
            },
        };
        let (ov, e3) = scan_dec(data, p3);
        let cookie = match ov {
            Some(v) => v,
            None => {
                return Err(meta_shape_error());
            },
        };
        if cookie > 0xffffffff {
            return Err(meta_shape_error());
        }
        let p4 = match eat_lit(data, e3, arr_fn.as_slice()) {
            Some(p) => p,
            None => {
                return Err(meta_shape_error());
            },
        };
        let (fb, p5) = match scan_string_exec(data, p4) {
            Some(t) => t,
            None => {
                return Err(meta_shape_error());
            },
        };
        let p6 = match eat_lit(data, p5, arr_ex.as_slice()) {
            Some(p) => p,
            None => {
                return Err(meta_shape_error());
            },
        };
        let (eb, p7) = match scan_array_exec(data, p6) {
            Some(t) => t,
            None => {
                return Err(meta_shape_error());
            },
        };
        if p7 >= data.len() {
            return Err(meta_shape_error());
        }
        if b_at(data, p7) != 0x7d {
            return Err(meta_shape_error());
        }
        let mut w: usize = p7 + 1;
        while w < data.len()
            invariant
                p7 + 1 <= w <= data@.len(),
                forall|k: int|
                    p7 + 1 <= k < w ==> (#[trigger] data@[k] == 0x20 || data@[k] == 0x09
                        || data@[k] == 0x0a || data@[k] == 0x0d),
            decreases data@.len() - w,
        {
            let c = b_at(data, w);
            if !(c == 0x20 || c == 0x09 || c == 0x0a || c == 0x0d) {
                proof {
                    let tail = data@.subrange(p7 as int + 1, data@.len() as int);
                    assert(tail[w - p7 - 1] == data@[w as int]);
                    assert(!all_ws(tail));
                }
                return Err(meta_shape_error());
            }
            w = w + 1;
        }
        proof {
            let tail = data@.subrange(p7 as int + 1, data@.len() as int);
            assert forall|k: int| 0 <= k < tail.len() implies (#[trigger] tail[k] == 0x20
                || tail[k] == 0x09 || tail[k] == 0x0a || tail[k] == 0x0d) by {
                assert(tail[k] == data@[p7 + 1 + k]);
            }
        }
        let filename = match crate::outside::bytes_to_string(fb) {
            Some(s) => s,
            None => {
                return Err(DecodeError::DeserializeError(CustomError::new(String::from_str(
                    "meta filename is not UTF-8",
                ))));
            },
        };
        Ok(
            MetaRecord {
                create_time,
                offset_data,
                size_data: size_data as u32,
                cookie: cookie as u32,
                filename,
                extra: eb,
            },
        )
    }
}

/// Reading a JSON string literal that holds the escape of `f` followed by
/// the closing quote recovers `f` exactly.
pub proof fn lemma_scan_string_escape(b: Seq<u8>, i: int, f: Seq<u8>)
    requires
        0 <= i,
        i + json_escape(f).len() < b.len(),
        b.subrange(i, i + json_escape(f).len()) == json_escape(f),
        b[i + json_escape(f).len()] == 0x22u8,
    ensures
        scan_string(b, i) == Some((f, i + json_escape(f).len() + 1)),
    decreases f.len(),
{
    if f.len() == 0 {
        assert(b[i] == 0x22u8);
        assert(Seq::<u8>::empty() =~= f);
    } else {
        let u = json_escape_byte(f[0]);
        let rest = json_escape(f.drop_first());
        assert(json_escape(f) == u + rest);
        let j = i + json_escape(f).len();
        assert forall|k: int| 0 <= k < u.len() implies b[i + k] == u[k] by {
            assert(b.subrange(i, j)[k] == (u + rest)[k]);
        }
        assert(b.subrange(i + u.len(), j) =~= rest) by {
            assert forall|k: int| 0 <= k < rest.len() implies b.subrange(i + u.len(), j)[k]
                == rest[k] by {
                assert(b.subrange(i, j)[u.len() + k] == (u + rest)[u.len() + k]);
            }
        }
        lemma_scan_string_escape(b, i + u.len(), f.drop_first());
        let c = f[0];
        if c == 0x22 || c == 0x5c {
            assert(b[i] == 0x5c && b[i + 1] == c);
            assert(scan_string(b, i) == cons_scan(c, scan_string(b, i + 2)));
        } else if c == 0x08 {
            assert(scan_string(b, i) == cons_scan(c, scan_string(b, i + 2)));
        } else if c == 0x09 {
            assert(scan_string(b, i) == cons_scan(c, scan_string(b, i + 2)));
        } else if c == 0x0a {
            assert(scan_string(b, i) == cons_scan(c, scan_string(b, i + 2)));
        } else if c == 0x0c {
            assert(scan_string(b, i) == cons_scan(c, scan_string(b, i + 2)));
        } else if c == 0x0d {
            assert(scan_string(b, i) == cons_scan(c, scan_string(b, i + 2)));
        } else if c < 0x20 {
            let pad = digits_pad(c as nat, 16, 2);
            crate::digits::lemma_digits_pad_roundtrip(c as nat, 16, 2);
            assert(crate::digits::pow_nat(16, 2) == 256) by {
                reveal_with_fuel(crate::digits::pow_nat, 3);
            }
            crate::digits::lemma_digits_len_bound(c as nat, 16, 2);
            assert(pad.len() == 2);
            assert(u =~= seq![0x5cu8, 0x75u8, 0x30u8, 0x30u8, pad[0], pad[1]]);
            assert(b[i] == 0x5c && b[i + 1] == 0x75 && b[i + 2] == 0x30 && b[i + 3] == 0x30);
            assert(b[i + 4] == pad[0] && b[i + 5] == pad[1]);
            assert(is_digit(pad[0], 16) && is_digit(pad[1], 16));
            assert(val_of_digits(pad, 16) == c as nat);
            assert(pad.drop_last() =~= seq![pad[0]]);
            assert(seq![pad[0]].drop_last() =~= Seq::<u8>::empty());
            assert(val_of_digits(pad, 16) == val_of_digits(pad.drop_last(), 16) * 16 + digit_val(
                pad.last(),
            ));
            assert(pad.last() == pad[1]);
            assert(val_of_digits(Seq::<u8>::empty(), 16) == 0);
            assert(val_of_digits(seq![pad[0]], 16) == 0 * 16 + digit_val(pad[0]));
            assert(val_of_digits(pad, 16) == digit_val(pad[0]) * 16 + digit_val(pad[1]));
            assert((digit_val(b[i + 4]) * 16 + digit_val(b[i + 5])) as u8 == c);
            assert(scan_string(b, i) == cons_scan(c, scan_string(b, i + 6)));
        } else {
            assert(u =~= seq![c]);
            assert(b[i] == c) by {
                assert(b[i + 0] == u[0]);
            }
            assert(scan_string(b, i) == cons_scan(c, scan_string(b, i + 1)));
        }
        assert(seq![c] + f.drop_first() =~= f);
    }
}

/// Reading a JSON byte array that holds the digits of `e` followed by the
/// closing bracket recovers `e` exactly.
pub proof fn lemma_scan_array_canonical(b: Seq<u8>, i: int, e: Seq<u8>)
    requires
        0 <= i,
        i + json_byte_array(e).len() < b.len(),
        b.subrange(i, i + json_byte_array(e).len()) == json_byte_array(e),
        b[i + json_byte_array(e).len()] == 0x5du8,
    ensures
        scan_array(b, i) == Some((e, i + json_byte_array(e).len() + 1)),
    decreases e.len(),
{
    let a = json_byte_array(e);
    let j = i + a.len();
    if e.len() == 0 {
        assert(b[i] == 0x5du8);
        assert(Seq::<u8>::empty() =~= e);
    } else {
        let ds = digits_of(e[0] as nat, 10);
        crate::digits::lemma_digits_of_are_digits(e[0] as nat, 10);
        crate::digits::lemma_digits_roundtrip(e[0] as nat, 10);
        assert forall|k: int| 0 <= k < ds.len() implies b[i + k] == ds[k] by {
            if e.len() == 1 {
                assert(b.subrange(i, j)[k] == a[k]);
            } else {
                assert(b.subrange(i, j)[k] == a[k]);
                assert(a[k] == ds[k]);
            }
        }
        assert(is_digit(ds[0], 10));
        assert(b[i] == ds[0]);
        assert(b[i] != 0x5du8);
        // The digit run of the first element ends exactly at the separator.
        let de = i + ds.len();
        assert forall|k: int| i <= k < de implies is_digit(#[trigger] b[k], 10) by {
            assert(b[k] == ds[k - i]);
        }
        if e.len() == 1 {
            assert(de == j);
            assert(!is_digit(b[de], 10));
            lemma_take_digits_exact(b, i, de);
            assert(b.subrange(i, de) =~= ds);
            assert(parse_digits(b.subrange(i, de), 10) == Some(e[0] as u64));
            assert(scan_elems(b, i) == Some((seq![e[0]], de + 1)));
            assert(seq![e[0]] =~= e);
        } else {
            assert(a == ds + seq![0x2cu8] + json_byte_array(e.drop_first()));
            assert(b[de] == 0x2cu8) by {
                assert(b.subrange(i, j)[ds.len() as int] == a[ds.len() as int]);
            }
            assert(!is_digit(b[de], 10));
            lemma_take_digits_exact(b, i, de);
            assert(b.subrange(i, de) =~= ds);
            assert(parse_digits(b.subrange(i, de), 10) == Some(e[0] as u64));
            let a2 = json_byte_array(e.drop_first());
            assert(b.subrange(de + 1, j) =~= a2) by {
                assert forall|k: int| 0 <= k < a2.len() implies b.subrange(de + 1, j)[k]
                    == a2[k] by {
                    assert(b.subrange(i, j)[ds.len() + 1 + k] == a[ds.len() + 1 + k]);
                }
            }
            lemma_scan_array_canonical(b, de + 1, e.drop_first());
            assert(e.drop_first().len() >= 1);
            assert(a2.len() >= 1);
            assert(b[de + 1] == a2[0]) by {
                assert(b.subrange(de + 1, j)[0] == a2[0]);
            }
            assert(a2[0] == digits_of(e.drop_first()[0] as nat, 10)[0]);
            crate::digits::lemma_digits_of_are_digits(e.drop_first()[0] as nat, 10);
            assert(is_digit(b[de + 1], 10));
            assert(b[de + 1] != 0x5du8);
            assert(scan_array(b, de + 1) == scan_elems(b, de + 1));
            assert(scan_elems(b, i) == cons_scan(e[0], scan_elems(b, de + 1)));
            assert(seq![e[0]] + e.drop_first() =~= e);
        }
        assert(scan_array(b, i) == scan_elems(b, i));
    }
}

/// Round trip: a canonical meta line, with any trailing whitespace such as
/// its newline, parses back to exactly the fields it was written from.
#[verifier::rlimit(100)]
pub proof fn lemma_parse_meta_canonical(
    ct: u64,
    od: u64,
    sd: u32,
    ck: u32,
    filename: Seq<char>,
    extra: Seq<u8>,
    tail: Seq<u8>,
)
    requires
        all_ws(tail),
    ensures
        spec_parse_meta(spec_meta_json(ct, od, sd, ck, filename, extra) + tail) == Some(
            (ct, od, sd, ck, encode_utf8(filename), extra),
        ),
{
    let d0 = digits_of(ct as nat, 10);
    let d1 = digits_of(od as nat, 10);
    let d2 = digits_of(sd as nat, 10);
    let d3 = digits_of(ck as nat, 10);
    let ef = json_escape(encode_utf8(filename));
    let ea = json_byte_array(extra);
    let b = spec_meta_json(ct, od, sd, ck, filename, extra) + tail;
    crate::digits::lemma_digits_of_are_digits(ct as nat, 10);
    crate::digits::lemma_digits_of_are_digits(od as nat, 10);
    crate::digits::lemma_digits_of_are_digits(sd as nat, 10);
    crate::digits::lemma_digits_of_are_digits(ck as nat, 10);
    crate::digits::lemma_digits_roundtrip(ct as nat, 10);
    crate::digits::lemma_digits_roundtrip(od as nat, 10);
    crate::digits::lemma_digits_roundtrip(sd as nat, 10);
    crate::digits::lemma_digits_roundtrip(ck as nat, 10);

    let p0 = 15int;
    let e0 = p0 + d0.len();
    let p1 = e0 + 15;
    let e1 = p1 + d1.len();
    let p2 = e1 + 13;
    let e2 = p2 + d2.len();
    let p3 = e2 + 10;
    let e3 = p3 + d3.len();
    let p4 = e3 + 13;
    let q = p4 + ef.len();
    let p5 = q + 1;
    let p6 = p5 + 10;
    let rb = p6 + ea.len();
    let p7 = rb + 1;

    assert(b.len() == p7 + 1 + tail.len());

    // The opening literal and the create_time digits.
    assert(b.subrange(0, p0) =~= lit_meta_ct());
    assert(match_lit(b, 0, lit_meta_ct()));
    assert(b.subrange(p0, e0) =~= d0);
    assert forall|k: int| p0 <= k < e0 implies is_digit(#[trigger] b[k], 10) by {
        assert(b.subrange(p0, e0)[k - p0] == d0[k - p0]);
    }
    assert(b[e0] == 0x2cu8) by {
        assert(b.subrange(e0, p1) =~= lit_meta_od());
    }
    lemma_take_digits_exact(b, p0, e0);
    assert(parse_digits(b.subrange(p0, e0), 10) == Some(ct));

    // The offset_data literal and digits.
    assert(b.subrange(e0, p1) =~= lit_meta_od());
    assert(match_lit(b, e0, lit_meta_od()));
    assert(b.subrange(p1, e1) =~= d1);
    assert forall|k: int| p1 <= k < e1 implies is_digit(#[trigger] b[k], 10) by {
        assert(b.subrange(p1, e1)[k - p1] == d1[k - p1]);
    }
    assert(b[e1] == 0x2cu8) by {
        assert(b.subrange(e1, p2) =~= lit_meta_sd());
    }
    lemma_take_digits_exact(b, p1, e1);
    assert(parse_digits(b.subrange(p1, e1), 10) == Some(od));

    // The size_data literal and digits.
    assert(b.subrange(e1, p2) =~= lit_meta_sd());
    assert(match_lit(b, e1, lit_meta_sd()));
    assert(b.subrange(p2, e2) =~= d2);
    assert forall|k: int| p2 <= k < e2 implies is_digit(#[trigger] b[k], 10) by {
        assert(b.subrange(p2, e2)[k - p2] == d2[k - p2]);
    }
    assert(b[e2] == 0x2cu8) by {
        assert(b.subrange(e2, p3) =~= lit_meta_ck());
    }
    lemma_take_digits_exact(b, p2, e2);
    assert(parse_digits(b.subrange(p2, e2), 10) == Some(sd as u64));

    // The cookie literal and digits.
    assert(b.subrange(e2, p3) =~= lit_meta_ck());
    assert(match_lit(b, e2, lit_meta_ck()));
    assert(b.subrange(p3, e3) =~= d3);
    assert forall|k: int| p3 <= k < e3 implies is_digit(#[trigger] b[k], 10) by {
        assert(b.subrange(p3, e3)[k - p3] == d3[k - p3]);
    }
    assert(b[e3] == 0x2cu8) by {
        assert(b.subrange(e3, p4) =~= lit_meta_fn());
    }
    lemma_take_digits_exact(b, p3, e3);
    assert(parse_digits(b.subrange(p3, e3), 10) == Some(ck as u64));

    // The filename literal and string body.
    assert(b.subrange(e3, p4) =~= lit_meta_fn());
    assert(match_lit(b, e3, lit_meta_fn()));
    assert(b.subrange(p4, q) =~= ef);
    assert(b[q] == 0x22u8);
    lemma_scan_string_escape(b, p4, encode_utf8(filename));
    assert(scan_string(b, p4) == Some((encode_utf8(filename), p5)));

    // The extra literal and array body.
    assert(b.subrange(p5, p6) =~= lit_meta_ex());
    assert(match_lit(b, p5, lit_meta_ex()));
    assert(b.subrange(p6, rb) =~= ea);
    assert(b[rb] == 0x5du8);
    lemma_scan_array_canonical(b, p6, extra);
    assert(scan_array(b, p6) == Some((extra, p7)));

    // The closing brace and the whitespace tail.
    assert(b[p7] == 0x7du8);
    assert(b.subrange(p7 + 1, b.len() as int) =~= tail);
}

/// One escaped byte takes at most six bytes.
proof fn lemma_escape_byte_len(b: u8)
    ensures
        1 <= json_escape_byte(b).len() <= 6,
{
    if b < 0x20 && b != 0x08 && b != 0x09 && b != 0x0a && b != 0x0c && b != 0x0d {
        assert(crate::digits::pow_nat(16, 2) == 256) by {
            reveal_with_fuel(crate::digits::pow_nat, 3);
        }
        crate::digits::lemma_digits_len_bound(b as nat, 16, 2);
        crate::digits::lemma_digits_pad_roundtrip(b as nat, 16, 2);
    }
}

/// An escaped string takes at most six bytes per byte.
pub proof fn lemma_escape_len(s: Seq<u8>)
    ensures
        json_escape(s).len() <= 6 * s.len(),
    decreases s.len(),
{
    if s.len() > 0 {
        lemma_escape_len(s.drop_first());
        lemma_escape_byte_len(s[0]);
    }
}

/// A byte array body takes at most four bytes per element.
pub proof fn lemma_byte_array_len(s: Seq<u8>)
    ensures
        json_byte_array(s).len() <= 4 * s.len(),
    decreases s.len(),
{
    assert(crate::digits::pow_nat(10, 3) == 1000) by {
        reveal_with_fuel(crate::digits::pow_nat, 4);
    }
    if s.len() > 0 {
        lemma_byte_array_len(s.drop_first());
        crate::digits::lemma_digits_len_bound(s[0] as nat, 10, 3);
    }
}

/// Decimal digit counts of the numeric fields: twenty digits cover `u64`,
/// ten cover `u32`.
pub proof fn lemma_dec_digit_counts(v64: u64, v32: u32)
    ensures
        digits_of(v64 as nat, 10).len() <= 20,
        digits_of(v32 as nat, 10).len() <= 10,
{
    assert(crate::digits::pow_nat(10, 20) == 0x56bc75e2d63100000) by {
        reveal_with_fuel(crate::digits::pow_nat, 21);
    }
    assert(crate::digits::pow_nat(10, 10) == 10000000000) by {
        reveal_with_fuel(crate::digits::pow_nat, 11);
    }
    crate::digits::lemma_digits_len_bound(v64 as nat, 10, 20);
    crate::digits::lemma_digits_len_bound(v32 as nat, 10, 10);
}

/// A meta line's length is bounded by a constant plus six bytes per filename
/// byte and four per extra byte, whatever the numeric fields hold.
pub proof fn lemma_meta_json_len_bound(
    create_time: u64,
    offset_data: u64,
    size_data: u32,
    cookie: u32,
    filename: Seq<char>,
    extra: Seq<u8>,
)
    ensures
        spec_meta_json(create_time, offset_data, size_data, cookie, filename, extra).len() <= 140
            + 6 * encode_utf8(filename).len() + 4 * extra.len(),
{
    lemma_dec_digit_counts(create_time, size_data);
    lemma_dec_digit_counts(offset_data, cookie);
    lemma_escape_len(encode_utf8(filename));
    lemma_byte_array_len(extra);
}

/// A meta magic line is never longer than 100 bytes.
pub proof fn lemma_meta_magic_json_len_bound(stack_id: u64)
    ensures
        spec_meta_magic_json(stack_id).len() <= 100,
{
    lemma_dec_digit_counts(stack_id, 0);
    lemma_dec_digit_counts(META_HEADER_MAGIC, 0);
}

/// The error returned where a meta line does not follow the grammar.
fn meta_shape_error() -> (r: DecodeError)
    ensures
        r is DeserializeError,
{
    DecodeError::DeserializeError(CustomError::new(String::from_str(
        "meta record is not a canonical meta JSON line",
    )))
}

/// Read one byte of a slice.
fn b_at(b: &[u8], i: usize) -> (r: u8)
    requires
        i < b@.len(),
    ensures
        r == b@[i as int],
{
    b[i]
}

} // verus!

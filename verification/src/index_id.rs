//! The index identifier: the textual tuple
//! `"{stack_id},{offset_data:x}{cookie:08x}"` that addresses one record.
//!
//! Parsers split at the first comma, take the last eight characters of the
//! right half as the cookie, and read everything before that as the data
//! offset.

use vstd::prelude::*;
use vstd::slice::slice_subrange;
use vstd::string::StringSliceAdditionalSpecFns;
use crate::digits::{
    digit_val, digits_of, digits_pad, is_digit, lemma_digits_len_bound,
    lemma_digits_of_are_digits, lemma_digits_pad_roundtrip, lemma_digits_roundtrip,
    parse_digit_run, parse_digits, pow_nat, push_digits, push_digits_pad, val_of_digits,
};
use crate::outside::string_from_ascii;

verus! {

/// The parsed form of an index identifier.
#[derive(Debug, Clone, Copy, PartialEq, Eq, Structural)]
pub struct IndexID {
    /// The stack holding the record.
    pub stack_id: u64,
    /// Byte offset of the data record inside the data file.
    pub offset_data: u64,
    /// The per-record cookie, checked on fetch.
    pub cookie: u32,
}

impl IndexID {
    /// The stack holding the record.
    pub fn stack_id(&self) -> (r: u64)
        ensures
            r == self.stack_id,
    {
        self.stack_id
    }

    /// Byte offset of the data record inside the data file.
    pub fn file_offset(&self) -> (r: u64)
        ensures
            r == self.offset_data,
    {
        self.offset_data
    }

    /// The per-record cookie.
    pub fn cookie(&self) -> (r: u32)
        ensures
            r == self.cookie,
    {
        self.cookie
    }
}

/// The byte form of a full index identifier: the stack identifier in decimal,
/// a comma, the data offset in unpadded hex, the cookie as eight hex digits.
pub open spec fn spec_full_index_id_bytes(stack_id: u64, offset_data: u64, cookie: u32) -> Seq<
    u8,
> {
    digits_of(stack_id as nat, 10) + seq![0x2cu8] + digits_of(offset_data as nat, 16)
        + digits_pad(cookie as nat, 16, 8)
}

/// The character form of a full index identifier.
pub open spec fn spec_full_index_id_chars(stack_id: u64, offset_data: u64, cookie: u32) -> Seq<
    char,
> {
    spec_full_index_id_bytes(stack_id, offset_data, cookie).map_values(|b: u8| b as char)
}

/// What an index identifier's bytes parse to: split at the first comma, the
/// left half a decimal stack identifier, the right half 8 to 24 hex digits
/// whose last eight are the cookie.
pub open spec fn spec_parse_index_id(b: Seq<u8>) -> Option<IndexID> {
    match b.index_of_first(0x2cu8) {
        None => None,
        Some(ci) => {
            let left = b.subrange(0, ci);
            let right = b.subrange(ci + 1, b.len() as int);
            if right.len() < 8 || right.len() > 24 {
                None
            } else {
                match parse_digits(left, 10) {
                    None => None,
                    Some(sid) => {
                        let off_b = right.subrange(0, right.len() - 8);
                        let ck_b = right.subrange(right.len() - 8, right.len() as int);
                        match (parse_digits(off_b, 16), parse_digits(ck_b, 16)) {
                            (Some(off), Some(ck)) => if ck <= u32::MAX {
                                Some(
                                    IndexID {
                                        stack_id: sid,
                                        offset_data: off,
                                        cookie: ck as u32,
                                    },
                                )
                            } else {
                                None
                            },
                            _ => None,
                        }
                    },
                }
            }
        },
    }
}

/// Build the full identifier `"{stack_id},{offset_data:x}{cookie:08x}"`.
pub fn full_index_id(stack_id: u64, offset_data: u64, cookie: u32) -> (r: String)
    ensures
        r@ == spec_full_index_id_chars(stack_id, offset_data, cookie),
{
    let mut bytes: Vec<u8> = Vec::new();
    push_digits(stack_id, 10, &mut bytes);
    bytes.push(0x2c);
    push_digits(offset_data, 16, &mut bytes);
    push_digits_pad(cookie as u64, 16, 8, &mut bytes);
    proof {
        lemma_full_id_bytes_ascii(stack_id, offset_data, cookie);
        assert(bytes@ =~= spec_full_index_id_bytes(stack_id, offset_data, cookie));
    }
    string_from_ascii(bytes)
}

/// Every byte of a full identifier is ASCII, and only the separator position
/// holds a comma.
pub proof fn lemma_full_id_bytes_ascii(stack_id: u64, offset_data: u64, cookie: u32)
    ensures
        forall|i: int|
            0 <= i < spec_full_index_id_bytes(stack_id, offset_data, cookie).len()
                ==> #[trigger] spec_full_index_id_bytes(stack_id, offset_data, cookie)[i] < 128,
        forall|i: int|
            0 <= i < spec_full_index_id_bytes(stack_id, offset_data, cookie).len()
                ==> ((#[trigger] spec_full_index_id_bytes(stack_id, offset_data, cookie)[i]
                == 0x2cu8) <==> i == digits_of(stack_id as nat, 10).len()),
{
    lemma_digits_of_are_digits(stack_id as nat, 10);
    lemma_digits_of_are_digits(offset_data as nat, 16);
    lemma_digits_pad_roundtrip(cookie as nat, 16, 8);
    let dsid = digits_of(stack_id as nat, 10);
    let doff = digits_of(offset_data as nat, 16);
    let dck = digits_pad(cookie as nat, 16, 8);
    let b = spec_full_index_id_bytes(stack_id, offset_data, cookie);
    assert forall|i: int| 0 <= i < b.len() implies #[trigger] b[i] < 128 && ((b[i] == 0x2cu8)
        <==> i == dsid.len()) by {
        if i < dsid.len() {
            assert(is_digit(dsid[i], 10));
            assert(digit_val(b[i]) < 16);
        } else if i == dsid.len() {
            assert(b[i] == 0x2cu8);
        } else if i < dsid.len() + 1 + doff.len() {
            assert(is_digit(doff[i - dsid.len() - 1], 16));
            assert(digit_val(b[i]) < 16);
        } else {
            assert(is_digit(dck[i - dsid.len() - 1 - doff.len()], 16));
            assert(digit_val(b[i]) < 16);
        }
    }
}

/// Sixteen hex digits cover the whole `u64` range.
proof fn lemma_pow16_16()
    ensures
        pow_nat(16, 16) == 0x10000000000000000,
        pow_nat(16, 8) == 0x100000000,
{
    reveal_with_fuel(pow_nat, 17);
}

/// Round trip: the identifier produced for a record parses back to exactly
/// its fields, so reconstructing the identifier from them yields the same
/// string.
pub proof fn lemma_index_id_roundtrip(stack_id: u64, offset_data: u64, cookie: u32)
    ensures
        spec_parse_index_id(spec_full_index_id_bytes(stack_id, offset_data, cookie)) == Some(
            IndexID { stack_id, offset_data, cookie },
        ),
{
    let dsid = digits_of(stack_id as nat, 10);
    let doff = digits_of(offset_data as nat, 16);
    let dck = digits_pad(cookie as nat, 16, 8);
    let b = spec_full_index_id_bytes(stack_id, offset_data, cookie);
    lemma_full_id_bytes_ascii(stack_id, offset_data, cookie);
    lemma_digits_of_are_digits(stack_id as nat, 10);
    lemma_digits_of_are_digits(offset_data as nat, 16);
    lemma_digits_pad_roundtrip(cookie as nat, 16, 8);
    lemma_digits_roundtrip(stack_id as nat, 10);
    lemma_digits_roundtrip(offset_data as nat, 16);

    // The first comma is the separator.
    b.index_of_first_ensures(0x2cu8);
    assert(b[dsid.len() as int] == 0x2cu8);
    assert(b.contains(0x2cu8));
    let ci = b.index_of_first(0x2cu8).unwrap();
    assert(b[ci] == 0x2cu8);
    assert(ci == dsid.len());

    let left = b.subrange(0, ci);
    let right = b.subrange(ci + 1, b.len() as int);
    assert(left =~= dsid);
    assert(right =~= doff + dck);

    // The right half is 9 to 24 hex digits: the offset takes at most 16.
    lemma_pow16_16();
    lemma_digits_len_bound(offset_data as nat, 16, 16);
    assert(dck.len() == 8) by {
        lemma_digits_len_bound(cookie as nat, 16, 8);
    }
    assert(8 <= right.len() <= 24);

    // The left half parses back to the stack identifier.
    assert(parse_digits(left, 10) == Some(stack_id));

    // The split of the right half recovers offset and cookie digits.
    let off_b = right.subrange(0, right.len() - 8);
    let ck_b = right.subrange(right.len() - 8, right.len() as int);
    assert(off_b =~= doff);
    assert(ck_b =~= dck);
    assert(parse_digits(off_b, 16) == Some(offset_data));
    assert(val_of_digits(ck_b, 16) == cookie as nat);
    assert(parse_digits(ck_b, 16) == Some(cookie as u64));
}

/// Find the first comma, with the same meaning as `Seq::index_of_first`.
#[verifier::loop_isolation(false)]
fn find_first_comma(bytes: &[u8]) -> (r: Option<usize>)
    ensures
        match r {
            Some(i) => bytes@.index_of_first(0x2cu8) == Some(i as int),
            None => bytes@.index_of_first(0x2cu8) is None,
        },
{
    let ghost bs = bytes@;
    proof {
        bs.index_of_first_ensures(0x2cu8);
    }
    let mut ci: usize = 0;
    while ci < bytes.len()
        invariant
            bytes@ == bs,
            0 <= ci <= bs.len(),
            forall|j: int| 0 <= j < ci ==> bs[j] != 0x2cu8,
        decreases bs.len() - ci,
    {
        if bytes[ci] == 0x2c {
            proof {
                assert(bs.contains(0x2cu8)) by {
                    assert(bs[ci as int] == 0x2cu8);
                }
                let w = bs.index_of_first(0x2cu8).unwrap();
                assert(bs[w] == 0x2cu8);
                assert(!(w < ci as int));
                assert(!(w > ci as int)) by {
                    if w > ci as int {
                        assert(bs[ci as int] != 0x2cu8);
                    }
                }
            }
            return Some(ci);
        }
        ci = ci + 1;
    }
    proof {
        if bs.index_of_first(0x2cu8) is Some {
            let w = bs.index_of_first(0x2cu8).unwrap();
            assert(bs[w] == 0x2cu8);
        }
    }
    None
}

/// The identifier produced for a record is ASCII, so its UTF-8 bytes are its
/// characters; parsing them recovers the fields. Together with the writer's
/// contract this closes the loop from `put`'s returned identifier to the
/// offset and cookie `fetch` needs.
pub proof fn lemma_full_id_utf8_roundtrip(stack_id: u64, offset_data: u64, cookie: u32)
    ensures
        spec_parse_index_id(
            vstd::utf8::encode_utf8(spec_full_index_id_chars(stack_id, offset_data, cookie)),
        ) == Some(IndexID { stack_id, offset_data, cookie }),
{
    let bs = spec_full_index_id_bytes(stack_id, offset_data, cookie);
    let cs = spec_full_index_id_chars(stack_id, offset_data, cookie);
    lemma_full_id_bytes_ascii(stack_id, offset_data, cookie);
    assert(vstd::utf8::is_ascii_chars(cs));
    vstd::utf8::is_ascii_chars_encode_utf8(cs);
    assert(vstd::utf8::encode_utf8(cs) =~= bs) by {
        assert forall|i: int| 0 <= i < bs.len() implies vstd::utf8::encode_utf8(cs)[i]
            == bs[i] by {
            assert(cs[i] == bs[i] as char);
        }
    }
    lemma_index_id_roundtrip(stack_id, offset_data, cookie);
}

/// Parse an index identifier. Returns `None` exactly where the grammar is
/// violated: no comma, a left half that is no decimal number, a right half
/// outside 8 to 24 hex digits, or a value out of range.
#[verifier::loop_isolation(false)]
pub fn parse_index_id(id: &str) -> (r: Option<IndexID>)
    ensures
        r == spec_parse_index_id(id.spec_bytes()),
{
    let bytes = id.as_bytes();
    let ghost bs = id.spec_bytes();
    proof {
        bs.index_of_first_ensures(0x2cu8);
    }
    let ci = match find_first_comma(bytes) {
        Some(i) => i,
        None => {
            return None;
        },
    };

    let right_len = bytes.len() - ci - 1;
    if right_len < 8 || right_len > 24 {
        return None;
    }
    let left = slice_subrange(bytes, 0, ci);
    let right = slice_subrange(bytes, ci + 1, bytes.len());
    let sid = match parse_digit_run(left, 10) {
        Some(v) => v,
        None => {
            return None;
        },
    };
    let off_part = slice_subrange(right, 0, right_len - 8);
    let ck_part = slice_subrange(right, right_len - 8, right_len);
    let off = match parse_digit_run(off_part, 16) {
        Some(v) => v,
        None => {
            return None;
        },
    };
    let ck = match parse_digit_run(ck_part, 16) {
        Some(v) => v,
        None => {
            return None;
        },
    };
    if ck > 0xffffffff {
        return None;
    }
    Some(IndexID { stack_id: sid, offset_data: off, cookie: ck as u32 })
}

/// Parse an index identifier into its accessor-style form. One grammar
/// addresses a record: the same one `parse_index_id` reads — split at the
/// first comma, the last eight hex digits of the right half the cookie, the
/// rest the data offset.
pub fn parse_stack_id(id: &str) -> (r: Option<IndexID>)
    ensures
        r == spec_parse_index_id(id.spec_bytes()),
{
    parse_index_id(id)
}

} // verus!
//! Stack file naming: `{prefix}0x{stack_id:04x}.{data|idx|meta}` — lower-case
//! hex, zero-padded to at least four digits, unbounded upward — and the
//! parsers that read a stack identifier back out of a file name.

use vstd::prelude::*;
use vstd::string::{StringExecFns, StringSliceAdditionalSpecFns, StrSliceExecFns};
use crate::digits::{
    digits_pad, lemma_digits_pad_roundtrip, parse_digit_run, parse_digits, push_digits_pad,
};
use crate::outside::string_from_ascii;

verus! {

/// The bytes of `".data"`.
pub open spec fn spec_ext_data() -> Seq<u8> {
    seq![0x2eu8, 0x64u8, 0x61u8, 0x74u8, 0x61u8]
}

/// The bytes of `".idx"`.
pub open spec fn spec_ext_idx() -> Seq<u8> {
    seq![0x2eu8, 0x69u8, 0x64u8, 0x78u8]
}

/// The bytes of `".meta"`.
pub open spec fn spec_ext_meta() -> Seq<u8> {
    seq![0x2eu8, 0x6du8, 0x65u8, 0x74u8, 0x61u8]
}

/// The byte form of a bare stack file name: `0x`, the identifier zero-padded
/// to at least four hex digits, then the extension.
pub open spec fn spec_stack_file_name_bytes(stack_id: u64, ext: Seq<u8>) -> Seq<u8> {
    seq![0x30u8, 0x78u8] + digits_pad(stack_id as nat, 16, 4) + ext
}

/// The char form of a bare stack file name.
pub open spec fn spec_stack_file_name_chars(stack_id: u64, ext: Seq<u8>) -> Seq<char> {
    spec_stack_file_name_bytes(stack_id, ext).map_values(|b: u8| b as char)
}

/// Append the bare file name for a stack to the given prefix.
fn push_stack_file_name(prefix: &str, stack_id: u64, ext: &[u8]) -> (r: String)
    requires
        forall|i: int| 0 <= i < ext@.len() ==> ext@[i] < 128,
    ensures
        r@ == prefix@ + spec_stack_file_name_chars(stack_id, ext@),
{
    let mut bytes: Vec<u8> = Vec::new();
    bytes.push(0x30);
    bytes.push(0x78);
    push_digits_pad(stack_id, 16, 4, &mut bytes);
    let mut i: usize = 0;
    let ghost mid = bytes@;
    while i < ext.len()
        invariant
            0 <= i <= ext@.len(),
            bytes@ == mid + ext@.subrange(0, i as int),
        decreases ext@.len() - i,
    {
        bytes.push(ext[i]);
        i = i + 1;
        proof {
            assert(bytes@ =~= mid + ext@.subrange(0, i as int));
        }
    }
    proof {
        assert(ext@.subrange(0, ext@.len() as int) =~= ext@);
        assert(bytes@ =~= spec_stack_file_name_bytes(stack_id, ext@));
        lemma_digits_pad_roundtrip(stack_id as nat, 16, 4);
        crate::digits::lemma_digits_of_are_digits(stack_id as nat, 16);
        assert forall|j: int| 0 <= j < bytes@.len() implies bytes@[j] < 128 by {
            let pad = digits_pad(stack_id as nat, 16, 4);
            if 2 <= j < 2 + pad.len() {
                assert(crate::digits::is_digit(pad[j - 2], 16));
            }
        }
    }
    let mut out = prefix.to_owned();
    let name = string_from_ascii(bytes);
    out.append(name.as_str());
    out
}

/// Path of a stack's data file under the given prefix.
pub fn get_data_file_path(prefix: &str, stack_id: u64) -> (r: String)
    ensures
        r@ == prefix@ + spec_stack_file_name_chars(stack_id, spec_ext_data()),
{
    let ext: [u8; 5] = [0x2e, 0x64, 0x61, 0x74, 0x61];
    let r = push_stack_file_name(prefix, stack_id, ext.as_slice());
    proof {
        assert(ext@ =~= spec_ext_data());
    }
    r
}

/// Path of a stack's index file under the given prefix.
pub fn get_index_file_path(prefix: &str, stack_id: u64) -> (r: String)
    ensures
        r@ == prefix@ + spec_stack_file_name_chars(stack_id, spec_ext_idx()),
{
    let ext: [u8; 4] = [0x2e, 0x69, 0x64, 0x78];
    let r = push_stack_file_name(prefix, stack_id, ext.as_slice());
    proof {
        assert(ext@ =~= spec_ext_idx());
    }
    r
}

/// Path of a stack's meta file under the given prefix.
pub fn get_meta_file_path(prefix: &str, stack_id: u64) -> (r: String)
    ensures
        r@ == prefix@ + spec_stack_file_name_chars(stack_id, spec_ext_meta()),
{
    let ext: [u8; 5] = [0x2e, 0x6d, 0x65, 0x74, 0x61];
    let r = push_stack_file_name(prefix, stack_id, ext.as_slice());
    proof {
        assert(ext@ =~= spec_ext_meta());
    }
    r
}

/// What a bare file name parses to for a given extension: the name must open
/// with `0x`, close with the extension, and hold only hex digits between.
pub open spec fn spec_parse_file_stack_id(b: Seq<u8>, ext: Seq<u8>) -> Option<u64> {
    if b.len() >= 2 + ext.len() && b.subrange(0, 2) == seq![0x30u8, 0x78u8] && b.subrange(
        b.len() - ext.len(),
        b.len() as int,
    ) == ext {
        parse_digits(b.subrange(2, b.len() - ext.len()), 16)
    } else {
        None
    }
}

/// Parse a stack identifier out of a bare file name with the given extension.
#[verifier::loop_isolation(false)]
pub fn parse_file_stack_id(file_name: &str, typ: &str) -> (r: Option<u64>)
    ensures
        r == spec_parse_file_stack_id(file_name.spec_bytes(), typ.spec_bytes()),
{
    let b = file_name.as_bytes();
    let ext = typ.as_bytes();
    if b.len() < 2 || b.len() - 2 < ext.len() {
        return None;
    }
    if !(b[0] == 0x30 && b[1] == 0x78) {
        proof {
            assert(b@.subrange(0, 2) != seq![0x30u8, 0x78u8]) by {
                if b@.subrange(0, 2) == seq![0x30u8, 0x78u8] {
                    assert(b@.subrange(0, 2)[0] == 0x30u8 && b@.subrange(0, 2)[1] == 0x78u8);
                }
            }
        }
        return None;
    }
    proof {
        assert(b@.subrange(0, 2) =~= seq![0x30u8, 0x78u8]);
    }
    let tail_start = b.len() - ext.len();
    let mut i: usize = 0;
    while i < ext.len()
        invariant
            0 <= i <= ext@.len(),
            forall|j: int| 0 <= j < i ==> b@[tail_start as int + j] == ext@[j],
        decreases ext@.len() - i,
    {
        if b[tail_start + i] != ext[i] {
            proof {
                let tail = b@.subrange(tail_start as int, b@.len() as int);
                assert(tail[i as int] != ext@[i as int]);
            }
            return None;
        }
        i = i + 1;
    }
    proof {
        assert(b@.subrange(tail_start as int, b@.len() as int) =~= ext@);
    }
    let middle = vstd::slice::slice_subrange(b, 2, tail_start);
    parse_digit_run(middle, 16)
}

/// Parse a stack identifier out of an index file name (`0x{id:04x}.idx`).
pub fn parse_index_stack_id(file_name: &str) -> (r: Option<u64>)
    ensures
        r == spec_parse_file_stack_id(file_name.spec_bytes(), spec_ext_idx()),
{
    let typ = ".idx";
    proof {
        reveal_strlit(".idx");
        vstd::utf8::is_ascii_chars_encode_utf8(typ@);
        assert(typ.spec_bytes() =~= spec_ext_idx());
    }
    parse_file_stack_id(file_name, typ)
}

/// Parse a stack identifier out of a meta file name (`0x{id:04x}.meta`).
pub fn parse_meta_stack_id(file_name: &str) -> (r: Option<u64>)
    ensures
        r == spec_parse_file_stack_id(file_name.spec_bytes(), spec_ext_meta()),
{
    let typ = ".meta";
    proof {
        reveal_strlit(".meta");
        vstd::utf8::is_ascii_chars_encode_utf8(typ@);
        assert(typ.spec_bytes() =~= spec_ext_meta());
    }
    parse_file_stack_id(file_name, typ)
}

/// Parse a stack identifier out of a data file name (`0x{id:04x}.data`).
pub fn parse_data_stack_id(file_name: &str) -> (r: Option<u64>)
    ensures
        r == spec_parse_file_stack_id(file_name.spec_bytes(), spec_ext_data()),
{
    let typ = ".data";
    proof {
        reveal_strlit(".data");
        vstd::utf8::is_ascii_chars_encode_utf8(typ@);
        assert(typ.spec_bytes() =~= spec_ext_data());
    }
    parse_file_stack_id(file_name, typ)
}

/// Round trip: the bare file name written for a stack parses back to its
/// identifier, for any extension that opens with a dot.
pub proof fn lemma_file_name_roundtrip(stack_id: u64, ext: Seq<u8>)
    requires
        ext.len() >= 1,
        ext[0] == 0x2eu8,
    ensures
        spec_parse_file_stack_id(spec_stack_file_name_bytes(stack_id, ext), ext) == Some(stack_id),
{
    lemma_digits_pad_roundtrip(stack_id as nat, 16, 4);
    let pad = digits_pad(stack_id as nat, 16, 4);
    let b = spec_stack_file_name_bytes(stack_id, ext);
    assert(b.len() == 2 + pad.len() + ext.len());
    assert(b.subrange(0, 2) =~= seq![0x30u8, 0x78u8]);
    assert(b.subrange(b.len() - ext.len(), b.len() as int) =~= ext);
    assert(b.subrange(2, b.len() - ext.len()) =~= pad);
    assert(pad.len() > 0);
}

} // verus!

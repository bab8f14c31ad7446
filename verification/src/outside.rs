//! The few places where the library leans on outside code: the CRC-32C
//! checksum, the cookie randomness, the clock, and UTF-8 conversion.
//!
//! Each item here is trusted: Verus believes its contract without reading
//! its body.

use vstd::prelude::*;

verus! {

/// The CRC-32C (Castagnoli) checksum of a byte sequence. The algorithm is a
/// pure function of the bytes; its result is named rather than written out.
pub uninterp spec fn crc32c_of(bytes: Seq<u8>) -> u32;

/// Relies on crc::Crc::<u32>::new(&crc::CRC_32_ISCSI).checksum: the CRC-32C
/// digest, a function of the bytes alone.
#[verifier::external_body]
pub(crate) fn crc32c(bytes: &Vec<u8>) -> (r: u32)
    ensures
        r == crc32c_of(bytes@),
{
    crc::Crc::<u32>::new(&crc::CRC_32_ISCSI).checksum(bytes.as_slice())
}

/// Relies on rand::random: a thread-local generator's next value. Nothing can
/// be promised of it.
#[verifier::external_body]
pub(crate) fn random_u32() -> u32 {
    rand::random::<u32>()
}

/// Relies on std::time::SystemTime::now and duration_since: the seconds of
/// the Unix timestamp now, or 0 for a clock before the epoch. Nothing can be
/// promised of it.
#[verifier::external_body]
pub fn current_time() -> u64 {
    match std::time::SystemTime::now().duration_since(std::time::UNIX_EPOCH) {
        Ok(d) => d.as_secs(),
        Err(_) => 0,
    }
}

/// Relies on String::from_utf8: it accepts exactly the valid UTF-8 byte
/// strings and decodes them.
#[verifier::external_body]
pub(crate) fn bytes_to_string(bytes: Vec<u8>) -> (r: Option<String>)
    ensures
        match r {
            Some(s) => vstd::utf8::valid_utf8(bytes@) && s@ == vstd::utf8::decode_utf8(bytes@),
            None => !vstd::utf8::valid_utf8(bytes@),
        },
{
    match String::from_utf8(bytes) {
        Ok(s) => Some(s),
        Err(_) => None,
    }
}

/// Relies on String::from_utf8: bytes below 0x80 are ASCII, and decode to
/// the chars with the same values.
#[verifier::external_body]
pub(crate) fn string_from_ascii(bytes: Vec<u8>) -> (r: String)
    requires
        forall|i: int| 0 <= i < bytes@.len() ==> bytes@[i] < 128,
    ensures
        r@ == bytes@.map_values(|b: u8| b as char),
{
    match String::from_utf8(bytes) {
        Ok(s) => s,
        Err(_) => String::new(),
    }
}

} // verus!

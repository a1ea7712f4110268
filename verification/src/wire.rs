//! How a timestamp travels as bytes.

use vstd::prelude::*;
use vstd::bytes::{
    lemma_auto_spec_u64_to_from_le_bytes, spec_u64_from_le_bytes, spec_u64_to_le_bytes,
};
use byteorder::{ByteOrder, LittleEndian};

verus! {

/// The eight bytes that carry a timestamp: its two's complement, least
/// significant byte first.
pub open spec fn timestamp_bytes(timestamp: i64) -> Seq<u8> {
    spec_u64_to_le_bytes(timestamp as u64)
}

/// The timestamp that the first eight of `bytes` carry.
pub open spec fn timestamp_from(bytes: Seq<u8>) -> i64 {
    spec_u64_from_le_bytes(bytes.subrange(0, 8)) as i64
}

/// `LittleEndian::write_i64` of byteorder, on a buffer of eight bytes: the
/// buffer then holds the number's two's complement, least significant byte
/// first.
#[verifier::external_body]
pub(crate) fn write_timestamp(timestamp: i64) -> (bytes: Vec<u8>)
    ensures
        bytes@ == timestamp_bytes(timestamp),
{
    let mut bytes = vec![0u8; 8];
    LittleEndian::write_i64(&mut bytes, timestamp);
    bytes
}

/// `LittleEndian::read_i64` of byteorder: the number whose two's complement
/// the first eight bytes hold, least significant byte first. It panics on
/// fewer than eight bytes.
#[verifier::external_body]
pub(crate) fn read_timestamp(bytes: &[u8]) -> (timestamp: i64)
    requires
        bytes@.len() >= 8,
    ensures
        timestamp == timestamp_from(bytes@),
{
    LittleEndian::read_i64(bytes)
}

/// A timestamp is read back as it was written.
pub proof fn lemma_timestamp_round_trip(timestamp: i64)
    ensures
        timestamp_bytes(timestamp).len() == 8,
        timestamp_from(timestamp_bytes(timestamp)) == timestamp,
{
    lemma_auto_spec_u64_to_from_le_bytes();
    let bytes = timestamp_bytes(timestamp);
    assert(bytes.subrange(0, 8) =~= bytes);
    assert((timestamp as u64) as i64 == timestamp) by (bit_vector);
}

} // verus!

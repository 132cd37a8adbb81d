//! Canonical byte encoding of vote payloads and decoding of peer-delivered
//! request payloads, through the SCALE codec.

use vstd::prelude::*;

verus! {

/// The SCALE codec's error type, carried through unread.
#[verifier::external_type_specification]
#[verifier::external_body]
pub struct ExCodecError(parity_scale_codec::Error);

/// The little-endian bytes of a 64-bit integer.
pub open spec fn u64_le_bytes(v: u64) -> Seq<u8> {
    Seq::new(8, |i: int| ((v >> (8 * i) as u64) & 0xff) as u8)
}

/// The little-endian bytes of a 32-bit integer.
pub open spec fn u32_le_bytes(v: u32) -> Seq<u8> {
    Seq::new(4, |i: int| ((v >> (8 * i) as u32) & 0xff) as u8)
}

/// The canonical payload signed for an approval vote: the relay block hash
/// followed by the candidate index, both little-endian.
pub open spec fn vote_payload_bytes(block_hash: u64, candidate_index: u32) -> Seq<u8> {
    u64_le_bytes(block_hash) + u32_le_bytes(candidate_index)
}

/// Relies on parity_scale_codec::Encode for (u64, u32): a fixed-width integer
/// encodes as its little-endian bytes, a tuple as the concatenation of its
/// fields' encodings.
#[verifier::external_body]
pub(crate) fn encode_vote_payload(block_hash: u64, candidate_index: u32) -> (r: Vec<u8>)
    ensures
        r@ == vote_payload_bytes(block_hash, candidate_index),
{
    parity_scale_codec::Encode::encode(&(block_hash, candidate_index))
}

/// Relies on parity_scale_codec::Decode for (u64, u32, u32): reads the three
/// fixed-width integers from the first 16 bytes, little-endian, and fails
/// exactly when fewer than 16 bytes are available.
#[verifier::external_body]
pub(crate) fn decode_request_payload(payload: &Vec<u8>) -> (r: Result<
    (u64, u32, u32),
    parity_scale_codec::Error,
>)
    ensures
        r is Ok <==> payload@.len() >= 16,
        r matches Ok(t) ==> {
            &&& u64_le_bytes(t.0) == payload@.subrange(0, 8)
            &&& u32_le_bytes(t.1) == payload@.subrange(8, 12)
            &&& u32_le_bytes(t.2) == payload@.subrange(12, 16)
        },
{
    parity_scale_codec::Decode::decode(&mut payload.as_slice())
}

} // verus!

use alloy_consensus::Header;
use vstd::prelude::*;

verus! {

/// The parent reference of the header whose canonical encoding is `b`, or
/// `None` when `b` is not exactly one header's encoding.
pub uninterp spec fn encoded_parent(b: Seq<u8>) -> Option<[u8; 32]>;

/// The hash of the header whose canonical encoding is `b`, or `None` when `b`
/// is not exactly one header's encoding.
pub uninterp spec fn encoded_hash(b: Seq<u8>) -> Option<[u8; 32]>;

/// Relies on `alloy_rlp::decode_exact::<alloy_consensus::Header>`: whether the
/// bytes decode, and to which header, depends on the bytes alone. The result
/// is the decoded header's `parent_hash`.
#[verifier::external_body]
pub(crate) fn decode_parent(b: &[u8]) -> (r: Option<[u8; 32]>)
    ensures
        r == encoded_parent(b@),
{
    alloy_rlp::decode_exact::<Header>(b).ok().map(|h| h.parent_hash.0)
}

/// Relies on `alloy_rlp::decode_exact::<alloy_consensus::Header>` and
/// `Header::hash_slow`: the header decoded from the bytes, hashed. Decoding is
/// the same as in `decode_parent`, so the two succeed on the same bytes.
#[verifier::external_body]
pub(crate) fn decode_hash(b: &[u8]) -> (r: Option<[u8; 32]>)
    ensures
        r == encoded_hash(b@),
        r is Some <==> encoded_parent(b@) is Some,
{
    alloy_rlp::decode_exact::<Header>(b).ok().map(|h| h.hash_slow().0)
}

} // verus!

//! Sizes that the layout of a Tendermint header fixes.

use vstd::prelude::*;

verus! {

/// The depth of the Merkle tree over the fields of a header.
pub const HEADER_PROOF_DEPTH: usize = 4;

/// The length of the protobuf encoding of a hash: a tag, a length and 32 bytes.
pub const PROTOBUF_HASH_SIZE_BYTES: usize = 34;

/// The length of the protobuf encoding of a block id.
pub const PROTOBUF_BLOCK_ID_SIZE_BYTES: usize = 72;

/// The length of a varint buffer.
pub const VARINT_SIZE_BYTES: usize = 9;

} // verus!

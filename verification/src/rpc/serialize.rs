//! Blob segments as they arrive over RPC, and their conversion into the
//! blob segments the aggregation works on.
use vstd::prelude::*;
use crate::primitives::blob_segment::{
    hash_preimage, keccak256_digest, segment_uuid, BlobSegment, Metadata,
};

verus! {

/// A blob segment as sent to `eth_sendBlobSegment`.
#[derive(Debug)]
pub struct RawBlobSegment {
    /// Block for which this blob segment is valid; absent or 0 means the next block.
    pub block_number: Option<u64>,
    /// Maximum fee the signer is willing to pay to include the blob segment.
    pub max_blob_segment_fee: u128,
    /// Data to be included in a blob.
    pub blob_segment_data: Vec<u8>,
    /// Contract on which the callback payload should be executed.
    pub callback_contract: Option<[u8; 20]>,
    /// Payload to execute on the callback contract.
    pub callback_payload: Option<Vec<u8>>,
    /// Address of the blob segment sender.
    pub signing_address: Option<[u8; 20]>,
    /// Minimum timestamp for which this blob segment is valid, in seconds since the Unix epoch.
    pub min_timestamp: Option<u64>,
    /// Maximum timestamp for which this blob segment is valid, in seconds since the Unix epoch.
    pub max_timestamp: Option<u64>,
}

/// The target block a raw blob segment asks for: absent and 0 both mean none.
pub open spec fn target_block(block_number: Option<u64>) -> Option<u64> {
    match block_number {
        Some(b) => if b != 0 {
            Some(b)
        } else {
            None
        },
        None => None,
    }
}

impl RawBlobSegment {
    /// Convert into a `BlobSegment`: block 0 becomes "no target block", the
    /// hash (over the data and the callback fields) and the uuid are
    /// computed, and the received time is stamped.
    pub fn decode(self) -> (res: Result<BlobSegment, ()>)
        ensures
            res matches Ok(segment) && {
                let v = segment@;
                &&& v.block == target_block(self.block_number)
                &&& v.min_timestamp == self.min_timestamp
                &&& v.max_timestamp == self.max_timestamp
                &&& v.max_blob_segment_fee == self.max_blob_segment_fee
                &&& v.blob_segment_data == self.blob_segment_data@
                &&& v.callback_contract == self.callback_contract
                &&& v.callback_payload == match self.callback_payload {
                    Some(p) => Some(p@),
                    None => None,
                }
                &&& v.hash@ == keccak256_digest(hash_preimage(v))
                &&& v.uuid@ == segment_uuid(target_block(self.block_number), v.hash@)
            },
    {
        let block = match self.block_number {
            Some(b) => b,
            None => 0,
        };
        let mut blob_segment = BlobSegment {
            block: if block != 0 {
                Some(block)
            } else {
                None
            },
            blob_segment_data: self.blob_segment_data,
            max_blob_segment_fee: self.max_blob_segment_fee,
            min_timestamp: self.min_timestamp,
            max_timestamp: self.max_timestamp,
            callback_contract: self.callback_contract,
            callback_payload: self.callback_payload,
            metadata: Metadata::default(),
            hash: [0u8; 32],
            uuid: [0u8; 16],
        };

        // Compute the blob segment hash and uuid
        blob_segment.hash_slow();

        Ok(blob_segment)
    }
}

} // verus!

use alloy_eips::eip4844::builder::{PartialSidecar, SidecarBuilder, SidecarCoder};
use alloy_eips::eip4844::{Blob, BlobTransactionSidecar, USABLE_BYTES_PER_BLOB};
use alloy_primitives::{FixedBytes, U256};
use blobsy_aggregator::building::partial_blob::PartialBlob;
use blobsy_aggregator::primitives::blob_segment::{BlobSegment, Metadata};
use blobsy_aggregator::submission::optimized_blob_coder::{
    OptimizedBlobCoder, HEADER_SIZE_BYTES, LENGTH_PREFIX_SIZE_BYTES,
};
use blobsy_aggregator::submission::rpc_submitter::{
    blob_data_and_segments, can_plan, select_partial_blobs, transaction_fees, PostedSegment,
};

struct Coder(OptimizedBlobCoder);

impl SidecarCoder for Coder {
    fn required_fe(&self, data: &[u8]) -> usize {
        self.0.required_fe(data)
    }

    fn code(&mut self, builder: &mut PartialSidecar, data: &[u8]) {
        self.0.code(builder, data)
    }

    fn finish(self, _builder: &mut PartialSidecar) {}

    fn decode_all(&mut self, blobs: &[Blob]) -> Option<Vec<Vec<u8>>> {
        let v: Vec<Vec<u8>> = blobs.iter().map(|b| b.to_vec()).collect();
        self.0.decode_all(&v)
    }
}

/// The sidecar and contract records for partial blobs, as the submitter builds them.
fn create_sidecar_and_solidity_structs(
    partial_blobs: Vec<PartialBlob>,
) -> (BlobTransactionSidecar, Vec<PostedSegment>) {
    let coder = OptimizedBlobCoder::new(true);
    assert!(can_plan(&partial_blobs, &coder), "capacity overflow");
    let (blob_data, blob_segments) = blob_data_and_segments(&partial_blobs, &coder);
    let mut sidecar = SidecarBuilder::from_coder_and_capacity(Coder(coder), partial_blobs.len());
    for data in &blob_data {
        sidecar.ingest(data);
    }
    let sidecar = sidecar.build().expect("Failed to create BlobTransactionSidecar");
    (sidecar, blob_segments)
}

fn segment(data: Vec<u8>) -> BlobSegment {
    BlobSegment {
        block: None,
        min_timestamp: None,
        max_timestamp: None,
        max_blob_segment_fee: 0,
        blob_segment_data: data,
        callback_contract: None,
        callback_payload: None,
        hash: Default::default(),
        uuid: Default::default(),
        metadata: Metadata::default(),
    }
}

fn create_partial_blob(data: Vec<u8>) -> PartialBlob {
    PartialBlob::new(vec![segment(data.clone())], data, 0)
}

fn field_elements(blob: &Blob) -> Vec<U256> {
    blob.chunks(32) // U256 is 32 bytes (256 bits)
        .map(|chunk| FixedBytes::<32>::from_slice(chunk).into())
        .collect::<Vec<U256>>()
}

#[test]
fn test_fully_pack_one_blob() {
    let mut length = USABLE_BYTES_PER_BLOB;
    length -= HEADER_SIZE_BYTES;
    length -= LENGTH_PREFIX_SIZE_BYTES;

    // Create a blob with data
    let partial_blob = create_partial_blob(vec![255u8; length]);

    // Create sidecar and solidity structs
    let (sidecar, blob_segments) = create_sidecar_and_solidity_structs(vec![partial_blob]);

    // Assert there is only one blob with 1 segment
    assert_eq!(sidecar.blobs.len(), 1);
    assert_eq!(blob_segments.len(), 1);

    // Assert all field elements are greater than zero
    assert!(field_elements(&sidecar.blobs[0]).iter().all(|fe| *fe > U256::ZERO));
}

#[test]
fn test_fully_pack_two_blobs() {
    let mut length = USABLE_BYTES_PER_BLOB;
    length -= HEADER_SIZE_BYTES;
    length -= LENGTH_PREFIX_SIZE_BYTES;

    let partial_blob_1 = create_partial_blob(vec![255u8; length]);

    length += HEADER_SIZE_BYTES; // Header is present only in the first blob
    let partial_blob_2 = create_partial_blob(vec![255u8; length]);

    let (sidecar, blob_segments) =
        create_sidecar_and_solidity_structs(vec![partial_blob_1, partial_blob_2]);

    // Assert there are two blobs with 1 segment each
    assert_eq!(sidecar.blobs.len(), 2);
    assert_eq!(blob_segments.len(), 2);

    // Assert ALL field elements of both blobs are greater than zero
    assert!(field_elements(&sidecar.blobs[0]).iter().all(|fe| *fe > U256::ZERO));
    assert!(field_elements(&sidecar.blobs[1]).iter().all(|fe| *fe > U256::ZERO));
}

#[test]
fn test_pad_first_blob() {
    let mut length = 31;
    length -= LENGTH_PREFIX_SIZE_BYTES;
    let partial_blob_1 = create_partial_blob(vec![255u8; length]);

    length = USABLE_BYTES_PER_BLOB;
    length -= LENGTH_PREFIX_SIZE_BYTES;
    let partial_blob_2 = create_partial_blob(vec![255u8; length]);

    let (sidecar, blob_segments) =
        create_sidecar_and_solidity_structs(vec![partial_blob_1, partial_blob_2]);

    // Assert there are two blobs with 1 segment each
    assert_eq!(sidecar.blobs.len(), 2);
    assert_eq!(blob_segments.len(), 2);

    // Assert ONLY the first two field elements of BLOB 1 are greater than zero
    let field_elements_as_u256 = field_elements(&sidecar.blobs[0]);
    assert!(field_elements_as_u256[0] > U256::ZERO);
    assert!(field_elements_as_u256[1] > U256::ZERO);
    assert!(field_elements_as_u256[2..].iter().all(|fe| *fe == U256::ZERO));

    // Assert ALL field elements of BLOB 2 are greater than zero
    assert!(field_elements(&sidecar.blobs[1]).iter().all(|fe| *fe > U256::ZERO));
}

#[test]
fn test_overflow_into_two_blobs() {
    let mut length = USABLE_BYTES_PER_BLOB;
    length -= HEADER_SIZE_BYTES;
    length -= LENGTH_PREFIX_SIZE_BYTES;
    length += 1; // Add 1 byte to overflow into the second blob

    let partial_blob_data = vec![254u8; length];
    let partial_blob = PartialBlob::new(
        vec![
            segment(partial_blob_data[0..(length - 1)].to_vec()),
            segment(partial_blob_data[(length - 1)..length].to_vec()),
        ],
        partial_blob_data,
        0,
    );

    let (sidecar, blob_segments) = create_sidecar_and_solidity_structs(vec![partial_blob]);

    // Assert there are two blobs with two segments
    assert_eq!(sidecar.blobs.len(), 2);
    assert_eq!(blob_segments.len(), 2);

    // Assert ALL field elements of BLOB 1 are greater than zero
    assert!(field_elements(&sidecar.blobs[0]).iter().all(|fe| *fe > U256::ZERO));

    // Assert ONLY the first field element of BLOB 2 is greater than zero
    let field_elements_as_u256 = field_elements(&sidecar.blobs[1]);
    assert!(field_elements_as_u256[0] > U256::ZERO);
    assert!(field_elements_as_u256[1..].iter().all(|fe| *fe == U256::ZERO));
}

#[test]
fn records_are_contiguous_per_blob() {
    let mut first = segment(vec![1u8; 10]);
    first.callback_contract = Some([7u8; 20]);
    first.callback_payload = Some(vec![9, 9]);
    first.hash = [3u8; 32];
    let second = segment(vec![2u8; 5]);
    let blob_a = PartialBlob::new(vec![first, second], vec![0u8; 15], 0);
    let blob_b = create_partial_blob(vec![4u8; 8]);
    let coder = OptimizedBlobCoder::new(true);
    let (data, records) = blob_data_and_segments(&vec![blob_a, blob_b], &coder);

    assert_eq!(records.len(), 3);
    assert_eq!(records[0].receiver_address, [7u8; 20]);
    assert_eq!(records[0].payload, vec![9, 9]);
    assert_eq!(records[0].blob_hash, [3u8; 32]);
    assert_eq!((records[0].first_blob_index, records[0].offset, records[0].length), (0, 0, 10));
    assert_eq!(records[1].receiver_address, [0u8; 20]);
    assert!(records[1].payload.is_empty());
    assert_eq!((records[1].first_blob_index, records[1].offset, records[1].length), (0, 10, 5));
    assert_eq!((records[2].first_blob_index, records[2].offset, records[2].length), (1, 0, 8));
    assert!(records.iter().all(|r| r.num_blobs == 1));

    // First blob: room for the data after the header and the length prefix
    assert_eq!(data[0].len(), USABLE_BYTES_PER_BLOB - 32 - 4);
    // Second blob: after the length prefix only
    assert_eq!(data[1].len(), USABLE_BYTES_PER_BLOB - 4);
    assert!(data[1][8..].iter().all(|&b| b == 0));
}

#[test]
fn without_length_prefix_only_the_header_takes_room() {
    let coder = OptimizedBlobCoder::new(false);
    let (data, _) = blob_data_and_segments(&vec![create_partial_blob(vec![1u8; 3])], &coder);
    assert_eq!(data[0].len(), USABLE_BYTES_PER_BLOB - 32);
}

#[test]
fn at_most_six_blobs_are_submitted() {
    let blobs: Vec<PartialBlob> = (0..8u8).map(|i| create_partial_blob(vec![i; 1])).collect();
    let selected = select_partial_blobs(blobs);
    assert_eq!(selected.len(), 6);
    assert_eq!(selected[5].data(), &vec![5u8]);
    let few = select_partial_blobs(vec![create_partial_blob(vec![1])]);
    assert_eq!(few.len(), 1);
}

#[test]
fn fees_from_history() {
    let (priority, max) = transaction_fees(&Some(vec![vec![3, 100]]), &vec![10, 20, 30]);
    assert_eq!(priority, 3);
    assert_eq!(max, 33);
}

#[test]
fn blobs_that_fit_in_two_blobs_can_be_planned() {
    let coder = OptimizedBlobCoder::new(true);
    let room = USABLE_BYTES_PER_BLOB - HEADER_SIZE_BYTES - LENGTH_PREFIX_SIZE_BYTES;

    // The first blob's data may fill two blobs, not more
    assert!(can_plan(&vec![create_partial_blob(vec![1u8; room + USABLE_BYTES_PER_BLOB])], &coder));
    assert!(!can_plan(&vec![create_partial_blob(vec![1u8; room + USABLE_BYTES_PER_BLOB + 1])], &coder));

    // Later blobs have the header's room too
    let second = vec![1u8; room + HEADER_SIZE_BYTES + USABLE_BYTES_PER_BLOB];
    assert!(can_plan(&vec![create_partial_blob(vec![1u8]), create_partial_blob(second.clone())], &coder));
    assert!(!can_plan(&vec![create_partial_blob(second)], &coder));
    assert!(can_plan(&vec![], &coder));
}

use blobsy_aggregator::primitives::blob_segment::{
    segment_uuid_of, uuid_from_digest, uuid_preimage_bytes, BlobSegment, Metadata,
};
use blobsy_aggregator::rpc::serialize::RawBlobSegment;
use integer_encoding::VarInt;
use sha2::Digest;

fn raw(block_number: Option<u64>, data: Vec<u8>) -> RawBlobSegment {
    RawBlobSegment {
        block_number,
        max_blob_segment_fee: 42,
        blob_segment_data: data,
        callback_contract: Some([1u8; 20]),
        callback_payload: None,
        signing_address: None,
        min_timestamp: Some(3),
        max_timestamp: None,
    }
}

fn expected_uuid(block: u64, hash: &[u8; 32]) -> [u8; 16] {
    let mut input = vec![0u8; 16];
    input.extend((block as i64).encode_var_vec());
    input.extend_from_slice(hash);
    let digest = sha2::Sha256::digest(&input);
    let mut bytes = [0u8; 16];
    bytes.copy_from_slice(&digest[0..16]);
    uuid::Builder::from_sha1_bytes(bytes).into_uuid().into_bytes()
}

#[test]
fn decode_maps_fields_and_hashes() {
    let segment = raw(Some(9), b"hello".to_vec()).decode().unwrap();
    assert_eq!(segment.block, Some(9));
    assert_eq!(segment.max_blob_segment_fee, 42);
    assert_eq!(segment.min_timestamp, Some(3));
    assert_eq!(segment.callback_contract, Some([1u8; 20]));
    let mut preimage = b"hello".to_vec();
    preimage.extend_from_slice(&[1u8; 20]);
    assert_eq!(segment.hash, alloy_primitives::keccak256(&preimage).0);
    assert_eq!(segment.uuid, expected_uuid(9, &segment.hash));
}

#[test]
fn block_zero_means_no_target() {
    assert_eq!(raw(Some(0), vec![1]).decode().unwrap().block, None);
    assert_eq!(raw(None, vec![1]).decode().unwrap().block, None);
}

#[test]
fn uuid_is_version_5() {
    let segment = raw(Some(300), vec![1, 2, 3]).decode().unwrap();
    assert_eq!(segment.uuid[6] >> 4, 5);
    assert_eq!(segment.uuid[8] >> 6, 2);
}

#[test]
fn hash_slow_is_deterministic() {
    let mut a = BlobSegment {
        block: Some(1),
        min_timestamp: None,
        max_timestamp: None,
        max_blob_segment_fee: 0,
        blob_segment_data: vec![5; 10],
        callback_contract: None,
        callback_payload: None,
        hash: [0; 32],
        uuid: [0; 16],
        metadata: Metadata::default(),
    };
    a.hash_slow();
    let (h, u) = (a.hash, a.uuid);
    a.hash_slow();
    assert_eq!((a.hash, a.uuid), (h, u));
    assert_eq!(a.uuid, expected_uuid(1, &h));
}

#[test]
fn hash_is_keccak256_of_data() {
    let mut r = raw(None, b"hello".to_vec());
    r.callback_contract = None;
    let segment = r.decode().unwrap();
    let expected: [u8; 32] = [
        0x1c, 0x8a, 0xff, 0x95, 0x06, 0x85, 0xc2, 0xed, 0x4b, 0xc3, 0x17, 0x4f, 0x34, 0x72, 0x28,
        0x7b, 0x56, 0xd9, 0x51, 0x7b, 0x9c, 0x94, 0x81, 0x27, 0x31, 0x9a, 0x09, 0xa7, 0xa3, 0x6d,
        0xea, 0xc8,
    ];
    assert_eq!(segment.hash, expected);
}

#[test]
fn uuid_of_largest_block_wraps_to_minus_one() {
    let segment = raw(Some(u64::MAX), vec![7]).decode().unwrap();
    // u64::MAX read as i64 is -1, whose zigzag varint is the single byte 1
    let mut input = vec![0u8; 16];
    input.push(1);
    input.extend_from_slice(&segment.hash);
    let digest = sha2::Sha256::digest(&input);
    let mut bytes = [0u8; 16];
    bytes.copy_from_slice(&digest[0..16]);
    bytes[6] = (bytes[6] & 0x0f) | 0x50;
    bytes[8] = (bytes[8] & 0x3f) | 0x80;
    assert_eq!(segment.uuid, bytes);
    assert_ne!(segment.uuid, expected_uuid(0, &segment.hash));
}

#[test]
fn uuid_preimage_is_zeros_varint_and_hash() {
    let hash = [7u8; 32];
    // 300 zigzags to 600, whose varint is 0xd8 0x04
    let mut expected = vec![0u8; 16];
    expected.extend_from_slice(&[0xd8, 0x04]);
    expected.extend_from_slice(&hash);
    assert_eq!(uuid_preimage_bytes(Some(300), &hash), expected);

    let mut expected = vec![0u8; 17];
    expected.extend_from_slice(&hash);
    assert_eq!(uuid_preimage_bytes(None, &hash), expected);
}

#[test]
fn uuid_from_digest_sets_version_and_variant() {
    let digest = [0xffu8; 32];
    let mut expected = [0xffu8; 16];
    expected[6] = 0x5f;
    expected[8] = 0xbf;
    assert_eq!(uuid_from_digest(&digest), expected);

    let digest = [0u8; 32];
    let mut expected = [0u8; 16];
    expected[6] = 0x50;
    expected[8] = 0x80;
    assert_eq!(uuid_from_digest(&digest), expected);
}

#[test]
fn segment_uuid_hashes_the_preimage() {
    let hash = [3u8; 32];
    assert_eq!(segment_uuid_of(Some(9), &hash), expected_uuid(9, &hash));
    assert_ne!(segment_uuid_of(Some(9), &hash), segment_uuid_of(Some(10), &hash));
}

#[test]
fn hash_covers_the_callback_fields() {
    let plain = {
        let mut r = raw(Some(4), vec![9, 9]);
        r.callback_contract = None;
        r.decode().unwrap()
    };
    let with_contract = raw(Some(4), vec![9, 9]).decode().unwrap();
    let with_payload = {
        let mut r = raw(Some(4), vec![9, 9]);
        r.callback_payload = Some(vec![1, 2, 3]);
        r.decode().unwrap()
    };
    assert_ne!(plain.hash, with_contract.hash);
    assert_ne!(with_contract.hash, with_payload.hash);
    assert_ne!(plain.uuid, with_contract.uuid);

    let mut expected = vec![9u8, 9];
    expected.extend_from_slice(&[1u8; 20]);
    expected.extend_from_slice(&[1, 2, 3]);
    assert_eq!(with_payload.hash_preimage_bytes(), expected);
    assert_eq!(with_payload.hash, alloy_primitives::keccak256(&expected).0);
    assert_eq!(plain.hash_preimage_bytes(), vec![9u8, 9]);
}

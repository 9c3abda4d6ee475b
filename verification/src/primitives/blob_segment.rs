//! Blob segments: the pieces of data users ask to be aggregated into blobs.
use vstd::prelude::*;
use integer_encoding::VarInt;
use sha2::Digest;

verus! {

/// What a blob segment holds, with its byte strings as sequences.
pub struct BlobSegmentView {
    pub block: Option<u64>,
    pub min_timestamp: Option<u64>,
    pub max_timestamp: Option<u64>,
    pub max_blob_segment_fee: u128,
    pub blob_segment_data: Seq<u8>,
    pub callback_contract: Option<[u8; 20]>,
    pub callback_payload: Option<Seq<u8>>,
    pub hash: [u8; 32],
    pub uuid: [u8; 16],
    pub received_at_timestamp_nanos: i128,
}

/// Metadata about a blob segment, such as when it was received.
#[derive(Debug, Clone, Copy, PartialEq, Eq, Hash)]
pub struct Metadata {
    /// When the blob segment was received, in nanoseconds since the Unix epoch (UTC).
    pub received_at_timestamp_nanos: i128,
}

/// `OffsetDateTime::now_utc().unix_timestamp_nanos()` of the `time` crate: the
/// current time; nothing is promised of its value.
#[verifier::external_body]
fn now_utc_unix_timestamp_nanos() -> i128 {
    time::OffsetDateTime::now_utc().unix_timestamp_nanos()
}

impl Default for Metadata {
    /// Metadata stamped with the current time.
    fn default() -> Self {
        Metadata { received_at_timestamp_nanos: now_utc_unix_timestamp_nanos() }
    }
}

/// The Keccak-256 digest of a byte string.
pub uninterp spec fn keccak256_digest(data: Seq<u8>) -> Seq<u8>;

/// The SHA-256 digest of a byte string.
pub uninterp spec fn sha256_digest(data: Seq<u8>) -> Seq<u8>;

/// `alloy_primitives::keccak256`: the Keccak-256 digest of `data`.
#[verifier::external_body]
fn keccak256(data: &[u8]) -> (h: [u8; 32])
    ensures
        h@ == keccak256_digest(data@),
{
    alloy_primitives::keccak256(data).0
}

/// `Sha256::digest` of the `sha2` crate: the SHA-256 digest of `data`.
#[verifier::external_body]
fn sha256(data: &[u8]) -> (h: [u8; 32])
    ensures
        h@ == sha256_digest(data@),
{
    sha2::Sha256::digest(data).into()
}

/// Zigzag encoding of a signed number (0, -1, 1, -2, ... become 0, 1, 2, 3, ...).
pub open spec fn zigzag(x: i64) -> nat {
    if x >= 0 {
        (2 * x) as nat
    } else {
        (-2 * x - 1) as nat
    }
}

/// Varint encoding of a number: seven bits per byte, least significant group
/// first, the top bit set on every byte but the last.
pub open spec fn varint_bytes(n: nat) -> Seq<u8>
    decreases n,
{
    if n < 128 {
        seq![n as u8]
    } else {
        seq![(n % 128 + 128) as u8] + varint_bytes(n / 128)
    }
}

/// `VarInt::encode_var_vec` for `i64` of the `integer-encoding` crate: the
/// varint encoding of the zigzag encoding of `x`.
#[verifier::external_body]
fn encode_var_vec_i64(x: i64) -> (v: Vec<u8>)
    ensures
        v@ == varint_bytes(zigzag(x)),
{
    x.encode_var_vec()
}

/// A version 5 (SHA-1 name based) RFC 4122 UUID made of 16 hash bytes: the
/// version in the top four bits of byte 6, the variant in the top two bits of byte 8.
pub open spec fn uuid_v5(bytes: Seq<u8>) -> Seq<u8> {
    bytes.update(6, (bytes[6] & 0x0fu8) | 0x50u8).update(8, (bytes[8] & 0x3fu8) | 0x80u8)
}

/// `uuid::Builder::from_sha1_bytes(..).into_uuid().into_bytes()`: sets the version
/// (5) and variant (RFC 4122) bits of the 16 bytes.
#[verifier::external_body]
fn uuid_from_sha1_bytes(bytes: [u8; 16]) -> (u: [u8; 16])
    ensures
        u@ == uuid_v5(bytes@),
{
    uuid::Builder::from_sha1_bytes(bytes).into_uuid().into_bytes()
}

/// The target block as the signed number the uuid is derived from (0 for none).
pub open spec fn uuid_block(block: Option<u64>) -> i64 {
    match block {
        Some(b) => b as i64,
        None => 0,
    }
}

/// The bytes hashed for a blob segment's uuid: 16 zero bytes, the varint of
/// the target block, then the segment's hash.
pub open spec fn uuid_preimage(block: Option<u64>, hash: Seq<u8>) -> Seq<u8> {
    Seq::new(16, |i: int| 0u8) + varint_bytes(zigzag(uuid_block(block))) + hash
}

/// The uuid of a blob segment: the first 16 bytes of the SHA-256 digest of its
/// preimage, as a version 5 UUID.
pub open spec fn segment_uuid(block: Option<u64>, hash: Seq<u8>) -> Seq<u8> {
    uuid_v5(sha256_digest(uuid_preimage(block, hash)).take(16))
}

/// A blob segment, with the fields the aggregation reads.
#[derive(Debug)]
pub struct BlobSegment {
    /// Target block; `None` means the first possible block.
    pub block: Option<u64>,
    pub min_timestamp: Option<u64>,
    pub max_timestamp: Option<u64>,
    /// Maximum fee the signer is willing to pay to include the blob segment.
    pub max_blob_segment_fee: u128,
    /// Blob segment data, to be aggregated.
    pub blob_segment_data: Vec<u8>,
    /// Contract on which the callback payload should be executed.
    pub callback_contract: Option<[u8; 20]>,
    /// Payload to execute on the callback contract.
    pub callback_payload: Option<Vec<u8>>,
    /// Virtual hash of the blob segment data, callback contract and callback payload.
    pub hash: [u8; 32],
    /// Unique id derived from the target block and the hash.
    pub uuid: [u8; 16],
    /// Metadata about the blob segment, such as the received timestamp.
    pub metadata: Metadata,
}

impl View for BlobSegment {
    type V = BlobSegmentView;

    open spec fn view(&self) -> BlobSegmentView {
        BlobSegmentView {
            block: self.block,
            min_timestamp: self.min_timestamp,
            max_timestamp: self.max_timestamp,
            max_blob_segment_fee: self.max_blob_segment_fee,
            blob_segment_data: self.blob_segment_data@,
            callback_contract: self.callback_contract,
            callback_payload: match self.callback_payload {
                Some(p) => Some(p@),
                None => None,
            },
            hash: self.hash,
            uuid: self.uuid,
            received_at_timestamp_nanos: self.metadata.received_at_timestamp_nanos,
        }
    }
}

/// A copy of a byte vector.
pub fn clone_bytes(v: &Vec<u8>) -> (r: Vec<u8>)
    ensures
        r@ == v@,
{
    let r = v.clone();
    assert(r@ =~= v@);
    r
}

impl Clone for BlobSegment {
    fn clone(&self) -> (r: Self)
        ensures
            r@ == self@,
    {
        BlobSegment {
            block: self.block,
            min_timestamp: self.min_timestamp,
            max_timestamp: self.max_timestamp,
            max_blob_segment_fee: self.max_blob_segment_fee,
            blob_segment_data: clone_bytes(&self.blob_segment_data),
            callback_contract: self.callback_contract,
            callback_payload: match &self.callback_payload {
                Some(p) => Some(clone_bytes(p)),
                None => None,
            },
            hash: self.hash,
            uuid: self.uuid,
            metadata: self.metadata,
        }
    }
}

/// The bytes hashed for the uuid of a blob segment with the target block and
/// hash: 16 zero bytes, the varint of the target block (read as a signed
/// number, 0 for none), then the hash.
pub fn uuid_preimage_bytes(block: Option<u64>, hash: &[u8; 32]) -> (p: Vec<u8>)
    ensures
        p@ == uuid_preimage(block, hash@),
{
    let signed_block: i64 = match block {
        Some(b) => #[verifier::truncate] (b as i64),
        None => 0,
    };
    let mut preimage: Vec<u8> = Vec::new();
    let mut j: usize = 0;
    while j < 16
        invariant
            j <= 16,
            preimage@ == Seq::new(j as nat, |q: int| 0u8),
        decreases 16 - j,
    {
        preimage.push(0u8);
        j = j + 1;
        assert(preimage@ =~= Seq::new(j as nat, |q: int| 0u8));
    }
    let mut varint = encode_var_vec_i64(signed_block);
    preimage.append(&mut varint);
    let ghost prefix = preimage@;
    let mut i: usize = 0;
    while i < 32
        invariant
            i <= 32,
            preimage@ == prefix + hash@.take(i as int),
        decreases 32 - i,
    {
        preimage.push(hash[i]);
        i = i + 1;
        assert(preimage@ =~= prefix + hash@.take(i as int));
    }
    assert(hash@.take(32) =~= hash@);
    assert(preimage@ =~= uuid_preimage(block, hash@));
    preimage
}

/// The uuid made of a SHA-256 digest: its first 16 bytes, as a version 5 UUID.
pub fn uuid_from_digest(digest: &[u8; 32]) -> (u: [u8; 16])
    ensures
        u@ == uuid_v5(digest@.take(16)),
{
    let mut res: [u8; 16] = [0u8; 16];
    let mut k: usize = 0;
    while k < 16
        invariant
            k <= 16,
            forall|q: int| 0 <= q < k ==> #[trigger] res@[q] == digest@[q],
        decreases 16 - k,
    {
        res[k] = digest[k];
        k = k + 1;
    }
    assert(res@ =~= digest@.take(16));
    uuid_from_sha1_bytes(res)
}

/// The uuid of a blob segment with the target block and hash.
pub fn segment_uuid_of(block: Option<u64>, hash: &[u8; 32]) -> (u: [u8; 16])
    ensures
        u@ == segment_uuid(block, hash@),
{
    let preimage = uuid_preimage_bytes(block, hash);
    let digest = sha256(preimage.as_slice());
    uuid_from_digest(&digest)
}

/// The bytes a blob segment's hash is computed from: its data, then the
/// callback contract (if any), then the callback payload (if any).
pub open spec fn hash_preimage(segment: BlobSegmentView) -> Seq<u8> {
    segment.blob_segment_data + match segment.callback_contract {
        Some(a) => a@,
        None => Seq::empty(),
    } + match segment.callback_payload {
        Some(p) => p,
        None => Seq::empty(),
    }
}

impl BlobSegment {
    /// The bytes the hash is computed from: the data, then the callback
    /// contract (if any), then the callback payload (if any).
    pub fn hash_preimage_bytes(&self) -> (p: Vec<u8>)
        ensures
            p@ == hash_preimage(self@),
    {
        let mut preimage = clone_bytes(&self.blob_segment_data);
        if let Some(contract) = &self.callback_contract {
            let ghost before = preimage@;
            let mut i: usize = 0;
            while i < 20
                invariant
                    i <= 20,
                    preimage@ == before + contract@.take(i as int),
                decreases 20 - i,
            {
                preimage.push(contract[i]);
                i = i + 1;
                assert(preimage@ =~= before + contract@.take(i as int));
            }
            assert(contract@.take(20) =~= contract@);
        }
        if let Some(payload) = &self.callback_payload {
            let mut tail = clone_bytes(payload);
            preimage.append(&mut tail);
        }
        assert(preimage@ =~= hash_preimage(self@));
        preimage
    }

    /// Recalculate the blob segment hash and uuid: the hash is the Keccak-256
    /// digest of the data, the callback contract and the callback payload (see
    /// `hash_preimage`); the uuid is derived from the target block and the hash.
    pub fn hash_slow(&mut self)
        ensures
            final(self)@ == (BlobSegmentView {
                hash: final(self).hash,
                uuid: final(self).uuid,
                ..old(self)@
            }),
            final(self).hash@ == keccak256_digest(hash_preimage(old(self)@)),
            final(self).uuid@ == segment_uuid(old(self).block, final(self).hash@),
    {
        let preimage = self.hash_preimage_bytes();
        let hash = keccak256(preimage.as_slice());
        self.hash = hash;
        self.uuid = segment_uuid_of(self.block, &hash);
    }
}

proof fn lemma_version_bits(b6: u8, b8: u8)
    by (bit_vector)
    ensures
        ((b6 & 0x0fu8) | 0x50u8) >> 4u8 == 5u8,
        ((b8 & 0x3fu8) | 0x80u8) >> 6u8 == 2u8,
        ((b6 & 0x0fu8) | 0x50u8) & 0x0fu8 == b6 & 0x0fu8,
        ((b8 & 0x3fu8) | 0x80u8) & 0x3fu8 == b8 & 0x3fu8,
{
}

/// A blob segment uuid is a version 5, RFC 4122 variant UUID: the top four bits
/// of byte 6 are 5, the top two bits of byte 8 are `10`; the other bits are
/// the hash bytes'.
pub proof fn lemma_uuid_v5(bytes: Seq<u8>)
    requires
        bytes.len() == 16,
    ensures
        uuid_v5(bytes).len() == 16,
        uuid_v5(bytes)[6] >> 4u8 == 5u8,
        uuid_v5(bytes)[8] >> 6u8 == 2u8,
        uuid_v5(bytes)[6] & 0x0fu8 == bytes[6] & 0x0fu8,
        uuid_v5(bytes)[8] & 0x3fu8 == bytes[8] & 0x3fu8,
        forall|k: int| 0 <= k < 16 && k != 6 && k != 8 ==> uuid_v5(bytes)[k] == bytes[k],
{
    lemma_version_bits(bytes[6], bytes[8]);
}

} // verus!

//! The decisions of the RPC submitter: which partial blobs go into a blob
//! transaction, how each is padded to fill its blob, the segment records the
//! `BlobSplitter` contract is called with, and the transaction's fees.
use vstd::prelude::*;
use crate::building::appending_blob_aggregator::blob_views;
use crate::building::partial_blob::{segment_views, PartialBlob, PartialBlobView};
use crate::primitives::blob_segment::{clone_bytes, BlobSegmentView};
use crate::submission::optimized_blob_coder::{
    OptimizedBlobCoder, HEADER_SIZE_BYTES, LENGTH_PREFIX_SIZE_BYTES, USABLE_BYTES_PER_BLOB,
};

verus! {

/// Most blobs a block can carry.
pub const MAX_BLOBS_PER_BLOCK: usize = 6;

/// What a posted segment record holds.
pub struct PostedSegmentView {
    pub receiver_address: Seq<u8>,
    pub first_blob_index: u64,
    pub num_blobs: u64,
    pub offset: u64,
    pub length: u64,
    pub payload: Seq<u8>,
    pub blob_hash: [u8; 32],
}

/// Where a blob segment lies in the blob transaction, as told to the
/// `BlobSplitter` contract.
#[derive(Debug)]
pub struct PostedSegment {
    /// Contract to call back (zero address if none).
    pub receiver_address: [u8; 20],
    /// Index of the blob the segment is in.
    pub first_blob_index: u64,
    /// Number of blobs the segment spans.
    pub num_blobs: u64,
    /// Offset of the segment in its blob's data.
    pub offset: u64,
    /// Length of the segment's data.
    pub length: u64,
    /// Payload for the callback (empty if none).
    pub payload: Vec<u8>,
    /// Hash of the segment.
    pub blob_hash: [u8; 32],
}

impl View for PostedSegment {
    type V = PostedSegmentView;

    open spec fn view(&self) -> PostedSegmentView {
        PostedSegmentView {
            receiver_address: self.receiver_address@,
            first_blob_index: self.first_blob_index,
            num_blobs: self.num_blobs,
            offset: self.offset,
            length: self.length,
            payload: self.payload@,
            blob_hash: self.blob_hash,
        }
    }
}

/// The views of a sequence of posted segments.
pub open spec fn posted_views(s: Seq<PostedSegment>) -> Seq<PostedSegmentView> {
    Seq::new(s.len(), |i: int| s[i]@)
}

/// The views of a sequence of byte vectors.
pub open spec fn bytes_views(s: Seq<Vec<u8>>) -> Seq<Seq<u8>> {
    Seq::new(s.len(), |i: int| s[i]@)
}

/// Total data length of a sequence of blob segments.
pub open spec fn total_len(segments: Seq<BlobSegmentView>) -> int
    decreases segments.len(),
{
    if segments.len() == 0 {
        0
    } else {
        total_len(segments.drop_last()) + segments.last().blob_segment_data.len()
    }
}

/// The record of segment `j` of blob `i`: it starts where the segments before
/// it in the blob end.
pub open spec fn posted_record(i: int, segments: Seq<BlobSegmentView>, j: int) -> PostedSegmentView {
    let s = segments[j];
    PostedSegmentView {
        receiver_address: match s.callback_contract {
            Some(a) => a@,
            None => Seq::new(20, |k: int| 0u8),
        },
        first_blob_index: i as u64,
        num_blobs: 1,
        offset: total_len(segments.take(j)) as u64,
        length: s.blob_segment_data.len() as u64,
        payload: match s.callback_payload {
            Some(p) => p,
            None => Seq::empty(),
        },
        blob_hash: s.hash,
    }
}

/// The records of the segments of blob `i`, in order.
pub open spec fn blob_records(i: int, segments: Seq<BlobSegmentView>) -> Seq<PostedSegmentView> {
    Seq::new(segments.len(), |j: int| posted_record(i, segments, j))
}

/// The records of the segments of all blobs, blob by blob.
pub open spec fn all_records(blobs: Seq<PartialBlobView>) -> Seq<PostedSegmentView>
    decreases blobs.len(),
{
    if blobs.len() == 0 {
        Seq::empty()
    } else {
        all_records(blobs.drop_last()) + blob_records(blobs.len() - 1, blobs.last().segments)
    }
}

/// The room in blob `i` for data, after the header (first blob only) and the
/// length prefix (if the coder writes one).
pub open spec fn blob_room(i: int, prepend_length: bool) -> int {
    USABLE_BYTES_PER_BLOB - (if i == 0 {
        HEADER_SIZE_BYTES as int
    } else {
        0
    }) - (if prepend_length {
        LENGTH_PREFIX_SIZE_BYTES as int
    } else {
        0
    })
}

/// Number of zero bytes appended to the data of blob `i` so that it fills the
/// blob; data that overflows the blob is padded to fill a second one.
pub open spec fn padding_len(i: int, len: int, prepend_length: bool) -> int {
    let room = blob_room(i, prepend_length);
    if len <= room {
        room - len
    } else {
        room + USABLE_BYTES_PER_BLOB - len
    }
}

/// The data of blob `i`, padded with zeros to fill its blob.
pub open spec fn padded_data(i: int, data: Seq<u8>, prepend_length: bool) -> Seq<u8> {
    data + Seq::new(padding_len(i, data.len() as int, prepend_length) as nat, |k: int| 0u8)
}

/// Whether every blob's data fits in two blobs and the offsets of its segments
/// fit in 64 bits.
pub open spec fn plannable(blobs: Seq<PartialBlobView>, prepend_length: bool) -> bool {
    &&& blobs.len() <= u64::MAX
    &&& forall|i: int|
        0 <= i < blobs.len() ==> #[trigger] blobs[i].data.len() <= blob_room(i, prepend_length)
            + USABLE_BYTES_PER_BLOB
    &&& forall|i: int| 0 <= i < blobs.len() ==> total_len(#[trigger] blobs[i].segments) <= u64::MAX
}

/// The partial blobs that go into one blob transaction: the first
/// `MAX_BLOBS_PER_BLOCK` of them.
pub fn select_partial_blobs(partial_blobs: Vec<PartialBlob>) -> (r: Vec<PartialBlob>)
    ensures
        blob_views(r@) == blob_views(partial_blobs@).take(
            if partial_blobs.len() > MAX_BLOBS_PER_BLOCK {
                MAX_BLOBS_PER_BLOCK as int
            } else {
                partial_blobs.len() as int
            },
        ),
{
    let mut partial_blobs = partial_blobs;
    let ghost before = blob_views(partial_blobs@);
    if partial_blobs.len() > MAX_BLOBS_PER_BLOCK {
        partial_blobs.truncate(MAX_BLOBS_PER_BLOCK);
    }
    assert(blob_views(partial_blobs@) =~= before.take(partial_blobs.len() as int));
    partial_blobs
}

proof fn lemma_total_len_push(segments: Seq<BlobSegmentView>, j: int)
    requires
        0 <= j < segments.len(),
    ensures
        total_len(segments.take(j + 1)) == total_len(segments.take(j)) + segments[j].blob_segment_data.len(),
        total_len(segments.take(j)) >= 0,
{
    assert(segments.take(j + 1).drop_last() =~= segments.take(j));
    lemma_total_len_nonneg(segments.take(j));
}

proof fn lemma_total_len_nonneg(segments: Seq<BlobSegmentView>)
    ensures
        total_len(segments) >= 0,
    decreases segments.len(),
{
    if segments.len() > 0 {
        lemma_total_len_nonneg(segments.drop_last());
    }
}

proof fn lemma_total_len_prefix(segments: Seq<BlobSegmentView>, j: int)
    requires
        0 <= j <= segments.len(),
    ensures
        total_len(segments.take(j)) <= total_len(segments),
    decreases segments.len() - j,
{
    if j < segments.len() {
        lemma_total_len_push(segments, j);
        lemma_total_len_prefix(segments, j + 1);
    } else {
        assert(segments.take(j) =~= segments);
    }
}

/// Whether the partial blobs can be laid out (see `plannable`): every blob's
/// data fits in two blobs and the offsets of its segments fit in 64 bits.
pub fn can_plan(partial_blobs: &Vec<PartialBlob>, coder: &OptimizedBlobCoder) -> (r: bool)
    ensures
        r == plannable(blob_views(partial_blobs@), coder.spec_prepend_length()),
{
    let ghost blobs = blob_views(partial_blobs@);
    let prepend_length = coder.should_prepend_length();
    let mut i: usize = 0;
    while i < partial_blobs.len()
        invariant
            blobs == blob_views(partial_blobs@),
            prepend_length == coder.spec_prepend_length(),
            i <= partial_blobs.len(),
            forall|q: int|
                0 <= q < i ==> #[trigger] blobs[q].data.len() <= blob_room(q, prepend_length)
                    + USABLE_BYTES_PER_BLOB,
            forall|q: int| 0 <= q < i ==> total_len(#[trigger] blobs[q].segments) <= u64::MAX,
        decreases partial_blobs.len() - i,
    {
        let partial_blob = &partial_blobs[i];
        assert(partial_blob@ == blobs[i as int]);
        let mut room: usize = USABLE_BYTES_PER_BLOB;
        if i == 0 {
            room = room - HEADER_SIZE_BYTES;
        }
        if prepend_length {
            room = room - LENGTH_PREFIX_SIZE_BYTES;
        }
        if partial_blob.data().len() > room + USABLE_BYTES_PER_BLOB {
            return false;
        }
        let segments = partial_blob.segments();
        let ghost segs = segment_views(segments@);
        let mut total: u64 = 0;
        let mut j: usize = 0;
        while j < segments.len()
            invariant
                segs == segment_views(segments@),
                blobs == blob_views(partial_blobs@),
                i < partial_blobs.len(),
                segs == blobs[i as int].segments,
                j <= segments.len(),
                total == total_len(segs.take(j as int)),
            decreases segments.len() - j,
        {
            assert(segments[j as int]@ == segs[j as int]);
            proof {
                lemma_total_len_push(segs, j as int);
            }
            let length = segments[j].blob_segment_data.len();
            if length as u128 > (u64::MAX - total) as u128 {
                proof {
                    lemma_total_len_prefix(segs, j as int + 1);
                    assert(total_len(blobs[i as int].segments) > u64::MAX);
                }
                return false;
            }
            total = total + length as u64;
            j = j + 1;
        }
        assert(segs.take(j as int) =~= segs);
        i = i + 1;
    }
    true
}

/// The blob data to ingest into the sidecar, one piece per partial blob, each
/// padded with zeros to fill its blob (the header takes room in the first
/// blob, the length prefix in every blob the coder prefixes); and the records
/// telling the `BlobSplitter` contract where each blob segment lies.
pub fn blob_data_and_segments(partial_blobs: &Vec<PartialBlob>, coder: &OptimizedBlobCoder) -> (r: (
    Vec<Vec<u8>>,
    Vec<PostedSegment>,
))
    requires
        plannable(blob_views(partial_blobs@), coder.spec_prepend_length()),
    ensures
        bytes_views(r.0@) == Seq::new(
            partial_blobs.len() as nat,
            |i: int| padded_data(i, partial_blobs@[i]@.data, coder.spec_prepend_length()),
        ),
        posted_views(r.1@) == all_records(blob_views(partial_blobs@)),
{
    let ghost blobs = blob_views(partial_blobs@);
    let prepend_length = coder.should_prepend_length();
    let mut blob_data: Vec<Vec<u8>> = Vec::new();
    let mut blob_segments: Vec<PostedSegment> = Vec::new();
    let mut i: usize = 0;
    while i < partial_blobs.len()
        invariant
            blobs == blob_views(partial_blobs@),
            prepend_length == coder.spec_prepend_length(),
            plannable(blobs, prepend_length),
            i <= partial_blobs.len(),
            bytes_views(blob_data@) == Seq::new(
                i as nat,
                |q: int| padded_data(q, partial_blobs@[q]@.data, prepend_length),
            ),
            posted_views(blob_segments@) == all_records(blobs.take(i as int)),
        decreases partial_blobs.len() - i,
    {
        let partial_blob = &partial_blobs[i];
        assert(partial_blob@ == blobs[i as int]);
        let segments = partial_blob.segments();
        let ghost segs = segment_views(segments@);
        assert(total_len(segs) <= u64::MAX);
        let ghost before = posted_views(blob_segments@);

        // Records for the contract call
        let mut offset: u64 = 0;
        let mut j: usize = 0;
        while j < segments.len()
            invariant
                segs == segment_views(segments@),
                total_len(segs) <= u64::MAX,
                i < partial_blobs.len(),
                i <= u64::MAX,
                j <= segments.len(),
                offset == total_len(segs.take(j as int)),
                posted_views(blob_segments@) == before + blob_records(i as int, segs).take(j as int),
            decreases segments.len() - j,
        {
            let segment = &segments[j];
            assert(segment@ == segs[j as int]);
            proof {
                lemma_total_len_push(segs, j as int);
                lemma_total_len_prefix(segs, j as int + 1);
            }
            let length = segment.blob_segment_data.len() as u64;
            let record = PostedSegment {
                receiver_address: match segment.callback_contract {
                    Some(a) => a,
                    None => [0u8; 20],
                },
                first_blob_index: i as u64,
                num_blobs: 1,
                offset,
                length,
                payload: match &segment.callback_payload {
                    Some(p) => clone_bytes(p),
                    None => Vec::new(),
                },
                blob_hash: segment.hash,
            };
            assert(record.receiver_address@ =~= posted_record(i as int, segs, j as int).receiver_address);
            let ghost old_posted = posted_views(blob_segments@);
            blob_segments.push(record);
            offset = offset + length;
            j = j + 1;
            assert(posted_views(blob_segments@) =~= old_posted.push(record@));
            assert(record@ =~= posted_record(i as int, segs, (j - 1) as int));
            assert(blob_records(i as int, segs).take(j as int) =~= blob_records(i as int, segs).take(j - 1).push(record@));
        }
        assert(blob_records(i as int, segs).take(j as int) =~= blob_records(i as int, segs));
        assert(blobs.take(i + 1).drop_last() =~= blobs.take(i as int));
        assert(blobs.take(i + 1).last() == blobs[i as int]);

        // Pad the remaining blob space with zeros, so that the whole blob is filled
        let data = partial_blob.data();
        let mut room: usize = USABLE_BYTES_PER_BLOB;
        if i == 0 {
            room = room - HEADER_SIZE_BYTES;
        }
        if prepend_length {
            room = room - LENGTH_PREFIX_SIZE_BYTES;
        }
        assert(data@.len() <= blob_room(i as int, prepend_length) + USABLE_BYTES_PER_BLOB);
        let padding = if data.len() <= room {
            room - data.len()
        } else {
            room + USABLE_BYTES_PER_BLOB - data.len()
        };
        let mut full = clone_bytes(data);
        let mut k: usize = 0;
        while k < padding
            invariant
                k <= padding,
                full@ == data@ + Seq::new(k as nat, |q: int| 0u8),
            decreases padding - k,
        {
            full.push(0u8);
            k = k + 1;
            assert(full@ =~= data@ + Seq::new(k as nat, |q: int| 0u8));
        }
        assert(full@ == padded_data(i as int, partial_blobs@[i as int]@.data, prepend_length));
        let ghost old_data = bytes_views(blob_data@);
        blob_data.push(full);
        i = i + 1;
        assert(bytes_views(blob_data@) =~= old_data.push(full@));
        assert(bytes_views(blob_data@) =~= Seq::new(
            i as nat,
            |q: int| padded_data(q, partial_blobs@[q]@.data, prepend_length),
        ));
    }
    assert(blobs.take(i as int) =~= blobs);
    (blob_data, blob_segments)
}

/// The fees of the blob transaction: the priority fee is the first reward of
/// the fee history, the maximum fee adds the latest base fee to it.
pub fn transaction_fees(reward: &Option<Vec<Vec<u128>>>, base_fee_per_gas: &Vec<u128>) -> (r: (u128, u128))
    requires
        reward matches Some(rw) && rw.len() > 0 && rw[0].len() > 0 && base_fee_per_gas.len() > 0
            && rw[0][0] + base_fee_per_gas[base_fee_per_gas.len() - 1] <= u128::MAX,
    ensures
        reward matches Some(rw) && r.0 == rw[0][0] && r.1 == rw[0][0] + base_fee_per_gas[base_fee_per_gas.len() - 1],
{
    match reward {
        Some(rewards) => {
            let priority_fee = rewards[0][0];
            let max_fee = priority_fee + base_fee_per_gas[base_fee_per_gas.len() - 1];
            (priority_fee, max_fee)
        },
        None => (0, 0),
    }
}

/// Each padded blob data, with the header (first blob) and the length prefix,
/// fills exactly one blob, or two when the data overflows the first.
pub proof fn lemma_padding_fills_blobs(i: int, len: int, prepend_length: bool)
    requires
        0 <= len <= blob_room(i, prepend_length) + USABLE_BYTES_PER_BLOB,
    ensures
        len + padding_len(i, len, prepend_length) + USABLE_BYTES_PER_BLOB - blob_room(i, prepend_length)
            == if len <= blob_room(i, prepend_length) {
            USABLE_BYTES_PER_BLOB as int
        } else {
            2 * USABLE_BYTES_PER_BLOB
        },
        padding_len(i, len, prepend_length) >= 0,
{
}

/// The records of a blob's segments are contiguous: each starts where the one
/// before it ends.
pub proof fn lemma_records_contiguous(i: int, segments: Seq<BlobSegmentView>, j: int)
    requires
        0 <= j,
        j + 1 < segments.len(),
        total_len(segments) <= u64::MAX,
    ensures
        blob_records(i, segments)[j + 1].offset == blob_records(i, segments)[j].offset + blob_records(
            i,
            segments,
        )[j].length,
        blob_records(i, segments)[0].offset == 0,
{
    lemma_total_len_push(segments, j);
    lemma_total_len_prefix(segments, j + 1);
    lemma_total_len_push(segments, j + 1);
    lemma_total_len_prefix(segments, j + 2);
    assert(segments.take(0) =~= Seq::<BlobSegmentView>::empty());
}

proof fn lemma_all_records_prefix(blobs: Seq<PartialBlobView>, k: int)
    requires
        0 <= k <= blobs.len(),
    ensures
        all_records(blobs.take(k)).len() <= all_records(blobs).len(),
        forall|q: int|
            0 <= q < all_records(blobs.take(k)).len() ==> #[trigger] all_records(blobs)[q] == all_records(
                blobs.take(k),
            )[q],
    decreases blobs.len(),
{
    if k == blobs.len() {
        assert(blobs.take(k) =~= blobs);
    } else {
        let d = blobs.drop_last();
        assert(d.take(k) =~= blobs.take(k));
        lemma_all_records_prefix(d, k);
        assert forall|q: int| 0 <= q < all_records(blobs.take(k)).len() implies #[trigger] all_records(blobs)[q]
            == all_records(blobs.take(k))[q] by {
            assert(all_records(blobs)[q] == all_records(d)[q]);
        }
    }
}

/// Each blob segment gets a record of its own, in blob order: the record of
/// segment `j` of blob `i` (after the records of the blobs before) carries that
/// segment's own hash, callback contract and payload, its blob's index, and its
/// length; it spans one blob.
pub proof fn lemma_record_of_each_segment(blobs: Seq<PartialBlobView>, i: int, j: int)
    requires
        0 <= i < blobs.len(),
        0 <= j < blobs[i].segments.len(),
        blobs.len() <= u64::MAX,
        blobs[i].segments[j].blob_segment_data.len() <= u64::MAX,
    ensures
        ({
            let q = all_records(blobs.take(i)).len() + j;
            let r = all_records(blobs)[q];
            let s = blobs[i].segments[j];
            &&& q < all_records(blobs).len()
            &&& r.blob_hash == s.hash
            &&& r.first_blob_index == i
            &&& r.num_blobs == 1
            &&& r.length == s.blob_segment_data.len()
            &&& r.receiver_address == match s.callback_contract {
                Some(a) => a@,
                None => Seq::new(20, |k: int| 0u8),
            }
            &&& r.payload == match s.callback_payload {
                Some(p) => p,
                None => Seq::empty(),
            }
        }),
{
    let t = blobs.take(i + 1);
    assert(t.drop_last() =~= blobs.take(i));
    assert(t.last() == blobs[i]);
    lemma_all_records_prefix(blobs, i + 1);
    let q = all_records(blobs.take(i)).len() + j;
    assert(all_records(t)[q] == blob_records(i, blobs[i].segments)[j]);
    assert(all_records(blobs)[q] == all_records(t)[q]);
}

} // verus!

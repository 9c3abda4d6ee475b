//! The decisions of the appending blob aggregator: where each incoming blob
//! segment goes, and how long segments are appended before submission.
use vstd::prelude::*;
use vstd::multiset::Multiset;
use crate::building::partial_blob::{
    clone_segments, fits_in_blob, segment_views, PartialBlob, PartialBlobView,
};
use crate::primitives::blob_segment::{clone_bytes, BlobSegment, BlobSegmentView};
use crate::submission::optimized_blob_coder::{LENGTH_PREFIX_SIZE_BYTES, USABLE_BYTES_PER_BLOB};

verus! {

/// Slot duration of the beacon chain, in seconds.
pub const SLOT_DURATION_SECS: u64 = 12;

/// The views of a sequence of partial blobs.
pub open spec fn blob_views(blobs: Seq<PartialBlob>) -> Seq<PartialBlobView> {
    Seq::new(blobs.len(), |i: int| blobs[i]@)
}

/// Whether the segment fits into blob `i`.
pub open spec fn fits(blobs: Seq<PartialBlobView>, segment: BlobSegmentView, i: int) -> bool {
    fits_in_blob(blobs[i].data.len() as int, segment.blob_segment_data.len() as int)
}

/// Whether blob `i` is the first one the segment fits into.
pub open spec fn is_first_fit(blobs: Seq<PartialBlobView>, segment: BlobSegmentView, i: int) -> bool {
    &&& 0 <= i < blobs.len()
    &&& fits(blobs, segment, i)
    &&& forall|j: int| 0 <= j < i ==> !fits(blobs, segment, j)
}

/// `a + b`, or the largest `u128` if that overflows.
pub open spec fn saturating_add(a: u128, b: u128) -> u128 {
    if a + b > u128::MAX {
        u128::MAX
    } else {
        (a + b) as u128
    }
}

/// A partial blob with the segment appended: its data after the blob's data,
/// its fee added to the blob's total fee.
pub open spec fn appended(blob: PartialBlobView, segment: BlobSegmentView) -> PartialBlobView {
    PartialBlobView {
        segments: blob.segments.push(segment),
        data: blob.data + segment.blob_segment_data,
        total_fee: saturating_add(blob.total_fee, segment.max_blob_segment_fee),
    }
}

/// A new partial blob holding only the segment.
pub open spec fn fresh_blob(segment: BlobSegmentView) -> PartialBlobView {
    PartialBlobView {
        segments: seq![segment],
        data: segment.blob_segment_data,
        total_fee: segment.max_blob_segment_fee,
    }
}

/// The partial blobs after a blob segment arrives: the segment is appended to
/// the first partial blob with room for it; if none has room, a new partial
/// blob holding the segment is added after the others. The other partial blobs
/// stay as they are.
pub fn append_segment(partial_blobs: &Vec<PartialBlob>, segment: &BlobSegment) -> (r: Vec<PartialBlob>)
    ensures
        forall|i: int|
            is_first_fit(blob_views(partial_blobs@), segment@, i) ==> blob_views(r@) == blob_views(
                partial_blobs@,
            ).update(i, appended(partial_blobs@[i]@, segment@)),
        (forall|i: int| 0 <= i < partial_blobs.len() ==> !fits(blob_views(partial_blobs@), segment@, i))
            ==> blob_views(r@) == blob_views(partial_blobs@).push(fresh_blob(segment@)),
{
    let ghost blobs = blob_views(partial_blobs@);
    let mut new_partial_blobs: Vec<PartialBlob> = Vec::new();
    let mut appended_at: Option<usize> = None;
    let mut i: usize = 0;
    while i < partial_blobs.len()
        invariant
            blobs == blob_views(partial_blobs@),
            i <= partial_blobs.len(),
            appended_at is None ==> blob_views(new_partial_blobs@) == blobs.take(i as int) && forall|j: int|
                0 <= j < i ==> !fits(blobs, segment@, j),
            appended_at matches Some(k) ==> k < i && is_first_fit(blobs, segment@, k as int) && blob_views(
                new_partial_blobs@,
            ) == blobs.take(i as int).update(k as int, appended(blobs[k as int], segment@)),
        decreases partial_blobs.len() - i,
    {
        let partial_blob = &partial_blobs[i];
        assert(partial_blob@ == blobs[i as int]);
        let ghost before = blob_views(new_partial_blobs@);
        if appended_at.is_none() && partial_blob.can_append_segment(segment.blob_segment_data.as_slice()) {
            // Append the blob segment to the first partial blob with room
            let mut new_segments = clone_segments(partial_blob.segments());
            let ghost old_segments = segment_views(new_segments@);
            new_segments.push(segment.clone());
            assert(segment_views(new_segments@) =~= old_segments.push(segment@));

            let mut new_data = clone_bytes(partial_blob.data());
            let mut segment_data = clone_bytes(&segment.blob_segment_data);
            new_data.append(&mut segment_data);

            let total_fee = partial_blob.total_fee().saturating_add(segment.max_blob_segment_fee);
            let blob = PartialBlob::new(new_segments, new_data, total_fee);
            new_partial_blobs.push(blob);
            assert(blob_views(new_partial_blobs@) =~= before.push(blob@));
            assert(blob_views(new_partial_blobs@) =~= blobs.take(i + 1).update(
                i as int,
                appended(blobs[i as int], segment@),
            ));
            appended_at = Some(i);
        } else {
            // Keep the partial blob as it is
            let blob = partial_blob.clone();
            new_partial_blobs.push(blob);
            assert(blob_views(new_partial_blobs@) =~= before.push(blob@));
            if let Some(k) = appended_at {
                assert(blob_views(new_partial_blobs@) =~= blobs.take(i + 1).update(
                    k as int,
                    appended(blobs[k as int], segment@),
                ));
            } else {
                assert(blob_views(new_partial_blobs@) =~= blobs.take(i + 1));
            }
        }
        i = i + 1;
    }
    assert(blobs.take(i as int) =~= blobs);

    // If no partial blob has room, add a new one
    if appended_at.is_none() {
        let mut segments: Vec<BlobSegment> = Vec::new();
        segments.push(segment.clone());
        assert(segment_views(segments@) =~= seq![segment@]);
        let blob = PartialBlob::new(
            segments,
            clone_bytes(&segment.blob_segment_data),
            segment.max_blob_segment_fee,
        );
        let ghost before = blob_views(new_partial_blobs@);
        new_partial_blobs.push(blob);
        assert(blob_views(new_partial_blobs@) =~= before.push(fresh_blob(segment@)));
    }
    proof {
        assert forall|k: int| is_first_fit(blobs, segment@, k) implies blob_views(new_partial_blobs@)
            == blobs.update(k, appended(partial_blobs@[k]@, segment@)) by {
            if let Some(a) = appended_at {
                if (a as int) < k {
                    assert(fits(blobs, segment@, a as int));
                } else if k < (a as int) {
                    assert(fits(blobs, segment@, k));
                }
                assert(blobs[k] == partial_blobs@[k]@);
            } else {
                assert(fits(blobs, segment@, k));
            }
        }
    }
    new_partial_blobs
}

/// The data of a sequence of blob segments, one after the other.
pub open spec fn segments_data(segments: Seq<BlobSegmentView>) -> Seq<u8>
    decreases segments.len(),
{
    if segments.len() == 0 {
        Seq::empty()
    } else {
        segments_data(segments.drop_last()) + segments.last().blob_segment_data
    }
}

/// The fees of a sequence of blob segments, added up (saturating at the
/// largest `u128`).
pub open spec fn segments_fee(segments: Seq<BlobSegmentView>) -> u128
    decreases segments.len(),
{
    if segments.len() == 0 {
        0
    } else {
        saturating_add(segments_fee(segments.drop_last()), segments.last().max_blob_segment_fee)
    }
}

/// Whether a partial blob's data is the data of its blob segments, one after
/// the other, and its total fee the sum of their fees.
pub open spec fn blob_consistent(blob: PartialBlobView) -> bool {
    &&& blob.data == segments_data(blob.segments)
    &&& blob.total_fee == segments_fee(blob.segments)
}

/// Appending blob segments keeps every partial blob's data the data of its
/// blob segments, one after the other, and its total fee their fees added up:
/// if this holds of the partial blobs before a segment arrives, it holds of
/// those after (see `append_segment`).
pub proof fn lemma_append_keeps_blobs_consistent(blobs: Seq<PartialBlobView>, segment: BlobSegmentView)
    requires
        forall|k: int| 0 <= k < blobs.len() ==> blob_consistent(#[trigger] blobs[k]),
    ensures
        forall|i: int, k: int|
            is_first_fit(blobs, segment, i) && 0 <= k < blobs.len() ==> blob_consistent(
                #[trigger] blobs.update(i, appended(blobs[i], segment))[k],
            ),
        forall|k: int|
            0 <= k <= blobs.len() ==> blob_consistent(#[trigger] blobs.push(fresh_blob(segment))[k]),
{
    assert forall|i: int, k: int|
        is_first_fit(blobs, segment, i) && 0 <= k < blobs.len() implies blob_consistent(
            #[trigger] blobs.update(i, appended(blobs[i], segment))[k],
        ) by {
        if k == i {
            let a = appended(blobs[i], segment);
            assert(a.segments.drop_last() =~= blobs[i].segments);
            assert(a.segments.last() == segment);
        }
    }
    assert forall|k: int| 0 <= k <= blobs.len() implies blob_consistent(
        #[trigger] blobs.push(fresh_blob(segment))[k],
    ) by {
        if k == blobs.len() {
            let f = fresh_blob(segment);
            assert(f.segments.drop_last() =~= Seq::<BlobSegmentView>::empty());
            assert(f.segments.last() == segment);
            assert(segments_data(f.segments.drop_last()) == Seq::<u8>::empty());
            assert(segments_fee(f.segments.drop_last()) == 0);
            assert(Seq::<u8>::empty() + segment.blob_segment_data =~= segment.blob_segment_data);
        }
    }
}

/// The blob segments of a sequence of partial blobs, all together.
pub open spec fn blobs_segments(blobs: Seq<PartialBlobView>) -> Multiset<BlobSegmentView>
    decreases blobs.len(),
{
    if blobs.len() == 0 {
        Multiset::empty()
    } else {
        blobs_segments(blobs.drop_last()).add(blobs.last().segments.to_multiset())
    }
}

proof fn lemma_blobs_segments_update(
    blobs: Seq<PartialBlobView>,
    i: int,
    b: PartialBlobView,
    segment: BlobSegmentView,
)
    requires
        0 <= i < blobs.len(),
        b.segments == blobs[i].segments.push(segment),
    ensures
        blobs_segments(blobs.update(i, b)) == blobs_segments(blobs).insert(segment),
    decreases blobs.len(),
{
    broadcast use vstd::seq_lib::group_to_multiset_ensures, vstd::multiset::group_multiset_axioms;

    let u = blobs.update(i, b);
    if i == blobs.len() - 1 {
        assert(u.drop_last() =~= blobs.drop_last());
        assert(u.last() == b);
        assert(b.segments.to_multiset() =~= blobs[i].segments.to_multiset().insert(segment));
        assert(blobs_segments(u) =~= blobs_segments(blobs).insert(segment));
    } else {
        assert(u.drop_last() =~= blobs.drop_last().update(i, b));
        assert(u.last() == blobs.last());
        lemma_blobs_segments_update(blobs.drop_last(), i, b, segment);
        assert(blobs_segments(u) =~= blobs_segments(blobs).insert(segment));
    }
}

/// No blob segment is lost while appending: the blob segments of the partial
/// blobs after a segment arrives are those before, and the segment (see
/// `append_segment`).
pub proof fn lemma_append_keeps_every_segment(blobs: Seq<PartialBlobView>, segment: BlobSegmentView)
    ensures
        forall|i: int|
            is_first_fit(blobs, segment, i) ==> #[trigger] blobs_segments(blobs.update(i, appended(blobs[i], segment)))
                == blobs_segments(blobs).insert(segment),
        blobs_segments(blobs.push(fresh_blob(segment))) == blobs_segments(blobs).insert(segment),
{
    broadcast use vstd::seq_lib::group_to_multiset_ensures, vstd::multiset::group_multiset_axioms;

    assert forall|i: int| is_first_fit(blobs, segment, i) implies #[trigger] blobs_segments(
        blobs.update(i, appended(blobs[i], segment)),
    ) == blobs_segments(blobs).insert(segment) by {
        lemma_blobs_segments_update(blobs, i, appended(blobs[i], segment), segment);
    }
    let p = blobs.push(fresh_blob(segment));
    assert(p.drop_last() =~= blobs);
    assert(seq![segment] =~= Seq::<BlobSegmentView>::empty().push(segment));
    assert(Seq::<BlobSegmentView>::empty().to_multiset() =~= Multiset::<BlobSegmentView>::empty());
    assert(blobs_segments(p) =~= blobs_segments(blobs).insert(segment));
}

/// A blob segment fits into a partial blob exactly when the blob's data, the
/// segment's data and its length prefix together stay below a blob's usable
/// bytes; so it goes into the first partial blob where they do (and those
/// before it are full).
pub proof fn lemma_segment_goes_to_first_roomy_blob(blobs: Seq<PartialBlobView>, segment: BlobSegmentView, i: int)
    ensures
        0 <= i < blobs.len() ==> (fits(blobs, segment, i) <==> blobs[i].data.len() + segment.blob_segment_data.len()
            + 4 < 130048),
        (0 <= i < blobs.len() && blobs[i].data.len() + segment.blob_segment_data.len() + 4 < 130048 && forall|j: int|
            0 <= j < i ==> blobs[j].data.len() + segment.blob_segment_data.len() + 4 >= 130048)
            ==> is_first_fit(blobs, segment, i),
{
}

/// How long (in nanoseconds) segments are appended before the partial blobs are
/// submitted: until one second before the end of the slot that started with the
/// block, given the current time and the block's timestamp.
pub fn appending_duration_nanos(now_nanos: u128, block_timestamp_secs: u64) -> (d: u128)
    requires
        block_timestamp_secs * 1_000_000_000 <= now_nanos,
        now_nanos - block_timestamp_secs * 1_000_000_000 <= (SLOT_DURATION_SECS - 1) * 1_000_000_000,
    ensures
        d == (SLOT_DURATION_SECS - 1) * 1_000_000_000 - (now_nanos - block_timestamp_secs * 1_000_000_000),
{
    let submission_threshold: u128 = ((SLOT_DURATION_SECS - 1) as u128) * 1_000_000_000;
    let elapsed = now_nanos - (block_timestamp_secs as u128) * 1_000_000_000;
    submission_threshold - elapsed
}

/// Appending a blob segment to a partial blob never fills the blob: its data
/// and the segment's length prefix stay below a blob's usable bytes.
pub proof fn lemma_appended_fits(blobs: Seq<PartialBlobView>, segment: BlobSegmentView, i: int)
    requires
        is_first_fit(blobs, segment, i),
    ensures
        appended(blobs[i], segment).data.len() + LENGTH_PREFIX_SIZE_BYTES < USABLE_BYTES_PER_BLOB,
        appended(blobs[i], segment).segments.last() == segment,
{
}

} // verus!

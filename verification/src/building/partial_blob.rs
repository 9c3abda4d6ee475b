//! Partial blobs: blob segments appended one after the other until the blob is full.
use vstd::prelude::*;
use crate::primitives::blob_segment::{clone_bytes, BlobSegment, BlobSegmentView};
use crate::submission::optimized_blob_coder::{LENGTH_PREFIX_SIZE_BYTES, USABLE_BYTES_PER_BLOB};

verus! {

/// What a partial blob holds.
pub struct PartialBlobView {
    pub segments: Seq<BlobSegmentView>,
    pub data: Seq<u8>,
    pub total_fee: u128,
}

/// The views of a sequence of blob segments.
pub open spec fn segment_views(segments: Seq<BlobSegment>) -> Seq<BlobSegmentView> {
    Seq::new(segments.len(), |i: int| segments[i]@)
}

/// Intermediary blob for appending blob segments. Upon submission partial blobs
/// are sealed and submitted as a full blob. Its contents are private, so a
/// partial blob cannot be changed from the outside.
#[derive(Debug)]
pub struct PartialBlob {
    segments: Vec<BlobSegment>,
    data: Vec<u8>,
    total_fee: u128,
}

impl View for PartialBlob {
    type V = PartialBlobView;

    closed spec fn view(&self) -> PartialBlobView {
        PartialBlobView { segments: segment_views(self.segments@), data: self.data@, total_fee: self.total_fee }
    }
}

/// Whether a segment of `segment_len` bytes (with its length prefix) still fits
/// next to `data_len` bytes in a blob.
pub open spec fn fits_in_blob(data_len: int, segment_len: int) -> bool {
    data_len + segment_len + LENGTH_PREFIX_SIZE_BYTES < USABLE_BYTES_PER_BLOB
}

/// The descending order of partial blobs by total fee, as `cmp` reports it.
pub open spec fn fee_order(a: u128, b: u128) -> std::cmp::Ordering {
    if b < a {
        std::cmp::Ordering::Less
    } else if b == a {
        std::cmp::Ordering::Equal
    } else {
        std::cmp::Ordering::Greater
    }
}

/// A copy of a sequence of blob segments.
pub fn clone_segments(segments: &Vec<BlobSegment>) -> (r: Vec<BlobSegment>)
    ensures
        segment_views(r@) == segment_views(segments@),
{
    let mut r: Vec<BlobSegment> = Vec::new();
    let mut i: usize = 0;
    while i < segments.len()
        invariant
            i <= segments.len(),
            segment_views(r@) == segment_views(segments@).take(i as int),
        decreases segments.len() - i,
    {
        let s = segments[i].clone();
        let ghost old_r = segment_views(r@);
        r.push(s);
        i = i + 1;
        assert(segment_views(r@) =~= old_r.push(s@));
        assert(segment_views(r@) =~= segment_views(segments@).take(i as int));
    }
    assert(segment_views(segments@).take(i as int) =~= segment_views(segments@));
    r
}

impl Clone for PartialBlob {
    fn clone(&self) -> (r: Self)
        ensures
            r@ == self@,
    {
        PartialBlob {
            segments: clone_segments(&self.segments),
            data: clone_bytes(&self.data),
            total_fee: self.total_fee,
        }
    }
}

impl PartialBlob {
    /// Creates a new `PartialBlob` from its blob segments, its data and the
    /// total fee the blob segments are willing to pay.
    pub fn new(segments: Vec<BlobSegment>, data: Vec<u8>, total_fee: u128) -> (blob: Self)
        ensures
            blob@ == (PartialBlobView { segments: segment_views(segments@), data: data@, total_fee }),
    {
        Self { segments, data, total_fee }
    }

    /// Whether the blob segment data (with its length prefix) can be appended
    /// to this blob without filling it.
    pub fn can_append_segment(&self, segment_data: &[u8]) -> (r: bool)
        ensures
            r == fits_in_blob(self@.data.len() as int, segment_data@.len() as int),
            r == (self@.data.len() + segment_data@.len() + LENGTH_PREFIX_SIZE_BYTES < USABLE_BYTES_PER_BLOB),
    {
        let segment_len = segment_data.len();
        if segment_len >= USABLE_BYTES_PER_BLOB || self.data.len() >= USABLE_BYTES_PER_BLOB {
            return false;
        }
        self.data.len() + segment_len + LENGTH_PREFIX_SIZE_BYTES < USABLE_BYTES_PER_BLOB
    }

    /// The blob segments in this partial blob.
    pub fn segments(&self) -> (r: &Vec<BlobSegment>)
        ensures
            segment_views(r@) == self@.segments,
    {
        &self.segments
    }

    /// The blob data in this partial blob.
    pub fn data(&self) -> (r: &Vec<u8>)
        ensures
            r@ == self@.data,
    {
        &self.data
    }

    /// The total fee the blob segments are willing to pay.
    pub fn total_fee(&self) -> (r: u128)
        ensures
            r == self@.total_fee,
    {
        self.total_fee
    }

    /// Descending order by total fee: the blob with the higher fee comes first.
    pub fn cmp(&self, other: &Self) -> (o: std::cmp::Ordering)
        ensures
            o == fee_order(self@.total_fee, other@.total_fee),
    {
        if other.total_fee < self.total_fee {
            std::cmp::Ordering::Less
        } else if other.total_fee == self.total_fee {
            std::cmp::Ordering::Equal
        } else {
            std::cmp::Ordering::Greater
        }
    }

    /// The order `cmp` gives.
    pub fn partial_cmp(&self, other: &Self) -> (o: Option<std::cmp::Ordering>)
        ensures
            o == Some(fee_order(self@.total_fee, other@.total_fee)),
    {
        Some(self.cmp(other))
    }

    /// The greater of two blobs in the descending fee order, as `Ord::max`
    /// gives it: `self` when its total fee is lower, otherwise `other` (so
    /// `other` on a tie).
    pub fn max(self, other: Self) -> (r: Self)
        ensures
            r@ == if self@.total_fee < other@.total_fee {
                self@
            } else {
                other@
            },
    {
        if self.total_fee < other.total_fee {
            self
        } else {
            other
        }
    }

    /// The lesser of two blobs in the descending fee order, as `Ord::min`
    /// gives it: `other` when this blob's total fee is lower, otherwise `self`
    /// (so `self` on a tie).
    pub fn min(self, other: Self) -> (r: Self)
        ensures
            r@ == if self@.total_fee < other@.total_fee {
                other@
            } else {
                self@
            },
    {
        if self.total_fee < other.total_fee {
            other
        } else {
            self
        }
    }

    /// This blob restricted to the interval from `min` to `max` in the
    /// descending fee order, as `Ord::clamp` gives it: `min` when this blob's
    /// total fee is above `min`'s (it comes before `min`), `max` when it is
    /// below `max`'s (it comes after `max`), otherwise this blob.
    pub fn clamp(self, min: Self, max: Self) -> (r: Self)
        ensures
            r@ == if self@.total_fee > min@.total_fee {
                min@
            } else if self@.total_fee < max@.total_fee {
                max@
            } else {
                self@
            },
    {
        if self.total_fee > min.total_fee {
            min
        } else if self.total_fee < max.total_fee {
            max
        } else {
            self
        }
    }

    /// Whether this blob comes before the other in the descending fee order:
    /// its total fee is higher.
    pub fn lt(&self, other: &Self) -> (r: bool)
        ensures
            r == (self@.total_fee > other@.total_fee),
            r == (fee_order(self@.total_fee, other@.total_fee) == std::cmp::Ordering::Less),
    {
        self.total_fee > other.total_fee
    }

    /// Whether this blob does not come after the other in the descending fee
    /// order: its total fee is at least the other's.
    pub fn le(&self, other: &Self) -> (r: bool)
        ensures
            r == (self@.total_fee >= other@.total_fee),
            r == (fee_order(self@.total_fee, other@.total_fee) != std::cmp::Ordering::Greater),
    {
        self.total_fee >= other.total_fee
    }

    /// Whether this blob comes after the other in the descending fee order:
    /// its total fee is lower.
    pub fn gt(&self, other: &Self) -> (r: bool)
        ensures
            r == (self@.total_fee < other@.total_fee),
            r == (fee_order(self@.total_fee, other@.total_fee) == std::cmp::Ordering::Greater),
    {
        self.total_fee < other.total_fee
    }

    /// Whether this blob does not come before the other in the descending fee
    /// order: its total fee is at most the other's.
    pub fn ge(&self, other: &Self) -> (r: bool)
        ensures
            r == (self@.total_fee <= other@.total_fee),
            r == (fee_order(self@.total_fee, other@.total_fee) != std::cmp::Ordering::Less),
    {
        self.total_fee <= other.total_fee
    }
}

/// `cmp` orders partial blobs by descending total fee: a blob comes before
/// another exactly when its fee is higher, and swapping the two reverses the order.
pub proof fn lemma_fee_order_descending(a: u128, b: u128)
    ensures
        (fee_order(a, b) == std::cmp::Ordering::Less) == (a > b),
        (fee_order(a, b) == std::cmp::Ordering::Equal) == (a == b),
        (fee_order(a, b) == std::cmp::Ordering::Greater) == (a < b),
        (fee_order(a, b) == std::cmp::Ordering::Less) == (fee_order(b, a) == std::cmp::Ordering::Greater),
{
}

/// A blob segment can be appended to a partial blob exactly when the blob's
/// data, the segment's data and its 4-byte length prefix together stay below
/// the 130048 usable bytes of a blob.
pub proof fn lemma_fits_in_blob_exactly(data_len: int, segment_len: int)
    ensures
        fits_in_blob(data_len, segment_len) <==> data_len + segment_len + 4 < 130048,
{
}

} // verus!

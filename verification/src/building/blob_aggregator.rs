//! The decisions of the blob aggregator: where incoming blob segments are
//! kept, which of them are pending inclusion after a submission, and which
//! are handed to the aggregation task of each new block.
use vstd::prelude::*;
use crate::building::appending_blob_aggregator::blob_views;
use crate::building::keyed::{
    keyed_map, keys_unique, lemma_keyed_map_dom, lemma_keyed_map_push, lemma_keyed_map_update,
    lemma_keyed_map_value, lemma_restrict_step, lemma_take_all, restrict,
};
use crate::building::partial_blob::{segment_views, PartialBlob, PartialBlobView};
use crate::primitives::blob_segment::{BlobSegment, BlobSegmentView};
use std::collections::HashMap;

verus! {

broadcast use vstd::std_specs::hash::group_hash_axioms;

/// Blocks after the current one until which a submitted blob segment without
/// a target block is held back, waiting to be included.
pub const PENDING_INCLUSION_BLOCKS: u64 = 10;

/// Context of an aggregation task: the block it aggregates for.
#[derive(Debug, Clone, Copy)]
pub struct AggregationContext {
    /// Number of the current block.
    pub current_block_number: u64,
    /// Timestamp of the current block, in seconds since the Unix epoch.
    pub current_block_timestamp: u64,
}

/// Blob segments as (hash, segment) pairs.
pub open spec fn segment_pairs(v: Seq<BlobSegment>) -> Seq<([u8; 32], BlobSegmentView)> {
    Seq::new(v.len(), |i: int| (v[i].hash, v[i]@))
}

/// Blob segments by target block, each list by its views.
pub open spec fn target_views(m: Map<u64, Vec<BlobSegment>>) -> Map<u64, Seq<BlobSegmentView>> {
    Map::new(|b: u64| m.contains_key(b), |b: u64| segment_views(m[b]@))
}

/// Blob segments keyed by their hash.
pub open spec fn segment_map(v: Seq<BlobSegment>) -> Map<[u8; 32], BlobSegmentView> {
    keyed_map(segment_pairs(v))
}

/// What the aggregator keeps.
pub struct AggregationStateView {
    /// Number of the latest block.
    pub current_block_number: u64,
    /// Timestamp of the latest block, in seconds since the Unix epoch.
    pub current_block_timestamp: u64,
    /// Blob segments with a target block, by target block, in arrival order.
    pub segments_by_target_block: Map<u64, Seq<BlobSegmentView>>,
    /// Blob segments for the current block, by hash.
    pub segments_for_current_block: Map<[u8; 32], BlobSegmentView>,
    /// Submitted blob segments without a target block, by hash, with the block
    /// until which they are held back.
    pub pending_expiration: Map<[u8; 32], u64>,
}

/// The blob segments kept for a target block (none if there are none).
pub open spec fn targeted(s: AggregationStateView, block: u64) -> Seq<BlobSegmentView> {
    if s.segments_by_target_block.contains_key(block) {
        s.segments_by_target_block[block]
    } else {
        Seq::empty()
    }
}

/// The state after a blob segment arrives: a segment with a target block is
/// kept under that block (after the ones before it), a segment without one
/// is kept (by hash) for the current block.
pub open spec fn after_segment(s: AggregationStateView, segment: BlobSegmentView) -> AggregationStateView {
    match segment.block {
        Some(b) => AggregationStateView {
            segments_by_target_block: s.segments_by_target_block.insert(b, targeted(s, b).push(segment)),
            ..s
        },
        None => AggregationStateView {
            segments_for_current_block: s.segments_for_current_block.insert(segment.hash, segment),
            ..s
        },
    }
}

/// Whether a block timestamp lies in the validity window of a blob segment:
/// not before its minimum timestamp, not after its maximum timestamp (where
/// given).
pub open spec fn in_window(segment: BlobSegmentView, t: u64) -> bool {
    &&& match segment.min_timestamp {
        Some(lo) => lo <= t,
        None => true,
    }
    &&& match segment.max_timestamp {
        Some(hi) => t <= hi,
        None => true,
    }
}

/// The blob segments valid at block timestamp `t`.
pub open spec fn valid_at(t: u64) -> spec_fn([u8; 32], BlobSegmentView) -> bool {
    |h: [u8; 32], segment: BlobSegmentView| in_window(segment, t)
}

/// Whether an arriving blob segment goes straight to the current aggregation
/// task: when it has no target block or targets the current block, and the
/// current block's timestamp lies in its validity window.
pub open spec fn forwarded_now(s: AggregationStateView, segment: BlobSegmentView) -> bool {
    &&& match segment.block {
        Some(b) => b == s.current_block_number,
        None => true,
    }
    &&& in_window(segment, s.current_block_timestamp)
}

/// The block until which a blob segment is held back (0 if it is not).
pub open spec fn pending_until(p: Map<[u8; 32], u64>, h: [u8; 32]) -> u64 {
    if p.contains_key(h) {
        p[h]
    } else {
        0
    }
}

/// Whether a blob segment for the current block stays when block `number`
/// arrives: it has no target block, it is not held back past `number`, and it
/// was not included in the new block.
pub open spec fn stays(s: AggregationStateView, number: u64, mined: Seq<[u8; 32]>) -> spec_fn(
    [u8; 32],
    BlobSegmentView,
) -> bool {
    |h: [u8; 32], segment: BlobSegmentView|
        segment.block is None && pending_until(s.pending_expiration, h) < number && !mined.contains(h)
}

/// Whether a held-back blob segment stays held back: it was not included in the new block.
pub open spec fn not_mined(mined: Seq<[u8; 32]>) -> spec_fn([u8; 32], u64) -> bool {
    |h: [u8; 32], e: u64| !mined.contains(h)
}

/// Blob segments inserted by hash one after the other.
pub open spec fn insert_all(m: Map<[u8; 32], BlobSegmentView>, segments: Seq<BlobSegmentView>) -> Map<
    [u8; 32],
    BlobSegmentView,
>
    decreases segments.len(),
{
    if segments.len() == 0 {
        m
    } else {
        insert_all(m, segments.drop_last()).insert(segments.last().hash, segments.last())
    }
}

/// The state after block `number` with timestamp `timestamp` arrives, with the
/// hashes of the blob segments included in it: the blob segments for the
/// current block are those that stay, followed by the ones that target the new
/// block; included blob segments are no longer held back.
pub open spec fn after_new_head(
    s: AggregationStateView,
    number: u64,
    timestamp: u64,
    mined: Seq<[u8; 32]>,
) -> AggregationStateView {
    AggregationStateView {
        current_block_number: number,
        current_block_timestamp: timestamp,
        segments_by_target_block: s.segments_by_target_block,
        segments_for_current_block: insert_all(
            restrict(s.segments_for_current_block, stays(s, number, mined)),
            targeted(s, number),
        ),
        pending_expiration: restrict(s.pending_expiration, not_mined(mined)),
    }
}

/// Each submitted blob segment without a target block, marked as held back
/// until `until`, segment after segment.
pub open spec fn mark_segments(p: Map<[u8; 32], u64>, segments: Seq<BlobSegmentView>, until: u64) -> Map<[u8; 32], u64>
    decreases segments.len(),
{
    if segments.len() == 0 {
        p
    } else {
        let q = mark_segments(p, segments.drop_last(), until);
        if segments.last().block is None {
            q.insert(segments.last().hash, until)
        } else {
            q
        }
    }
}

/// `mark_segments` for all submitted partial blobs, blob after blob.
pub open spec fn mark_blobs(p: Map<[u8; 32], u64>, blobs: Seq<PartialBlobView>, until: u64) -> Map<[u8; 32], u64>
    decreases blobs.len(),
{
    if blobs.len() == 0 {
        p
    } else {
        mark_segments(mark_blobs(p, blobs.drop_last(), until), blobs.last().segments, until)
    }
}

/// The state after partial blobs were submitted: their blob segments without
/// a target block are held back until `PENDING_INCLUSION_BLOCKS` blocks after
/// the current one.
pub open spec fn after_submitted(s: AggregationStateView, blobs: Seq<PartialBlobView>) -> AggregationStateView {
    AggregationStateView {
        pending_expiration: mark_blobs(
            s.pending_expiration,
            blobs,
            (s.current_block_number + PENDING_INCLUSION_BLOCKS) as u64,
        ),
        ..s
    }
}

/// Whether the partial blobs hold a blob segment without a target block with the hash.
pub open spec fn submitted_unbound(blobs: Seq<PartialBlobView>, h: [u8; 32]) -> bool {
    exists|i: int, j: int|
        0 <= i < blobs.len() && 0 <= j < blobs[i].segments.len() && (#[trigger] blobs[i].segments[j]).block
            is None && blobs[i].segments[j].hash == h
}

/// Whether every blob segment kept under a target block targets that block.
pub open spec fn targets_consistent(s: AggregationStateView) -> bool {
    forall|b: u64, j: int|
        #![trigger s.segments_by_target_block[b][j]]
        s.segments_by_target_block.contains_key(b) && 0 <= j < s.segments_by_target_block[b].len()
            ==> s.segments_by_target_block[b][j].block == Some(b)
}

/// Whether every blob segment for the current block has no target block or
/// targets the current block.
pub open spec fn current_consistent(s: AggregationStateView) -> bool {
    forall|h: [u8; 32]|
        #[trigger] s.segments_for_current_block.contains_key(h) ==> (s.segments_for_current_block[h].block is None
            || s.segments_for_current_block[h].block == Some(s.current_block_number))
}

/// The state of the blob aggregator.
pub struct AggregationState {
    current_block_number: u64,
    current_block_timestamp: u64,
    segments_by_target_block: HashMap<u64, Vec<BlobSegment>>,
    segments_for_current_block: Vec<BlobSegment>,
    pending_expiration: Vec<([u8; 32], u64)>,
}

impl View for AggregationState {
    type V = AggregationStateView;

    closed spec fn view(&self) -> AggregationStateView {
        AggregationStateView {
            current_block_number: self.current_block_number,
            current_block_timestamp: self.current_block_timestamp,
            segments_by_target_block: target_views(self.segments_by_target_block@),
            segments_for_current_block: segment_map(self.segments_for_current_block@),
            pending_expiration: keyed_map(self.pending_expiration@),
        }
    }
}

/// Whether a block timestamp lies in the validity window of a blob segment.
pub fn within_window(segment: &BlobSegment, t: u64) -> (r: bool)
    ensures
        r == in_window(segment@, t),
{
    let after_min = match segment.min_timestamp {
        Some(lo) => lo <= t,
        None => true,
    };
    let before_max = match segment.max_timestamp {
        Some(hi) => t <= hi,
        None => true,
    };
    after_min && before_max
}

/// Whether two hashes are equal.
fn hashes_equal(a: &[u8; 32], b: &[u8; 32]) -> (r: bool)
    ensures
        r == (*a == *b),
{
    let mut i: usize = 0;
    while i < 32
        invariant
            i <= 32,
            forall|q: int| 0 <= q < i ==> a@[q] == b@[q],
        decreases 32 - i,
    {
        if a[i] != b[i] {
            assert(a@[i as int] != b@[i as int]);
            return false;
        }
        i = i + 1;
    }
    assert(*a =~= *b);
    true
}

/// Index of the blob segment with the hash, if any.
fn find_segment(v: &Vec<BlobSegment>, h: &[u8; 32]) -> (r: Option<usize>)
    ensures
        r matches Some(i) ==> i < v.len() && v@[i as int].hash == *h,
        r is None ==> forall|i: int| 0 <= i < v.len() ==> v@[i].hash != *h,
{
    let mut i: usize = 0;
    while i < v.len()
        invariant
            i <= v.len(),
            forall|q: int| 0 <= q < i ==> v@[q].hash != *h,
        decreases v.len() - i,
    {
        if hashes_equal(&v[i].hash, h) {
            return Some(i);
        }
        i = i + 1;
    }
    None
}

/// Index of the pair with the hash, if any.
fn find_pending(v: &Vec<([u8; 32], u64)>, h: &[u8; 32]) -> (r: Option<usize>)
    ensures
        r matches Some(i) ==> i < v.len() && v@[i as int].0 == *h,
        r is None ==> forall|i: int| 0 <= i < v.len() ==> v@[i].0 != *h,
{
    let mut i: usize = 0;
    while i < v.len()
        invariant
            i <= v.len(),
            forall|q: int| 0 <= q < i ==> v@[q].0 != *h,
        decreases v.len() - i,
    {
        if hashes_equal(&v[i].0, h) {
            return Some(i);
        }
        i = i + 1;
    }
    None
}

/// Whether the hash is among the hashes.
fn contains_hash(v: &Vec<[u8; 32]>, h: &[u8; 32]) -> (r: bool)
    ensures
        r == v@.contains(*h),
{
    let mut i: usize = 0;
    while i < v.len()
        invariant
            i <= v.len(),
            forall|q: int| 0 <= q < i ==> v@[q] != *h,
        decreases v.len() - i,
    {
        if hashes_equal(&v[i], h) {
            assert(v@[i as int] == *h);
            return true;
        }
        i = i + 1;
    }
    false
}

/// Insert a blob segment by its hash, replacing one with the same hash.
fn insert_segment(v: &mut Vec<BlobSegment>, segment: BlobSegment)
    requires
        keys_unique(segment_pairs(old(v)@)),
    ensures
        keys_unique(segment_pairs(final(v)@)),
        segment_map(final(v)@) == segment_map(old(v)@).insert(segment.hash, segment@),
{
    let ghost old_pairs = segment_pairs(v@);
    let ghost seg = segment@;
    let h = segment.hash;
    match find_segment(v, &h) {
        Some(i) => {
            v.set(i, segment);
            proof {
                lemma_keyed_map_update(old_pairs, i as int, seg);
                assert(segment_pairs(v@) =~= old_pairs.update(i as int, (old_pairs[i as int].0, seg)));
            }
        },
        None => {
            v.push(segment);
            proof {
                lemma_keyed_map_push(old_pairs, h, seg);
                assert(segment_pairs(v@) =~= old_pairs.push((h, seg)));
            }
        },
    }
}

/// Set the block a hash is held back until, replacing an earlier one.
fn insert_pending(v: &mut Vec<([u8; 32], u64)>, h: [u8; 32], expiration: u64)
    requires
        keys_unique(old(v)@),
    ensures
        keys_unique(final(v)@),
        keyed_map(final(v)@) == keyed_map(old(v)@).insert(h, expiration),
{
    let ghost old_v = v@;
    match find_pending(v, &h) {
        Some(i) => {
            v.set(i, (h, expiration));
            proof {
                lemma_keyed_map_update(old_v, i as int, expiration);
            }
        },
        None => {
            v.push((h, expiration));
            proof {
                lemma_keyed_map_push(old_v, h, expiration);
            }
        },
    }
}

impl AggregationState {
    #[verifier::type_invariant]
    spec fn wf(self) -> bool {
        &&& keys_unique(segment_pairs(self.segments_for_current_block@))
        &&& keys_unique(self.pending_expiration@)
    }

    /// An empty state at block 0.
    pub fn new() -> (s: Self)
        ensures
            s@.current_block_number == 0,
            s@.current_block_timestamp == 0,
            s@.segments_by_target_block == Map::<u64, Seq<BlobSegmentView>>::empty(),
            s@.segments_for_current_block == Map::<[u8; 32], BlobSegmentView>::empty(),
            s@.pending_expiration == Map::<[u8; 32], u64>::empty(),
    {
        let s = AggregationState {
            current_block_number: 0,
            current_block_timestamp: 0,
            segments_by_target_block: HashMap::new(),
            segments_for_current_block: Vec::new(),
            pending_expiration: Vec::new(),
        };
        assert(s@.segments_by_target_block =~= Map::<u64, Seq<BlobSegmentView>>::empty());
        assert(segment_pairs(s.segments_for_current_block@) =~= Seq::empty());
        s
    }

    /// Number of the latest block.
    pub fn current_block_number(&self) -> (r: u64)
        ensures
            r == self@.current_block_number,
    {
        self.current_block_number
    }
    /// Keep an arriving blob segment; returns the segment when it goes straight
    /// to the current aggregation task.
    pub fn on_blob_segment(&mut self, segment: BlobSegment) -> (forward: Option<BlobSegment>)
        ensures
            final(self)@ == after_segment(old(self)@, segment@),
            forwarded_now(old(self)@, segment@) ==> (forward matches Some(f) && f@ == segment@),
            !forwarded_now(old(self)@, segment@) ==> forward is None,
    {
        proof {
            use_type_invariant(&*self);
        }
        let ghost old_view = self@;
        let ghost seg = segment@;
        let valid = within_window(&segment, self.current_block_timestamp);
        match segment.block {
            Some(b) => {
                let forward = if b == self.current_block_number && valid {
                    Some(segment.clone())
                } else {
                    None
                };
                let mut targets: HashMap<u64, Vec<BlobSegment>> = HashMap::new();
                std::mem::swap(&mut targets, &mut self.segments_by_target_block);
                let mut list: Vec<BlobSegment> = match targets.remove(&b) {
                    Some(l) => l,
                    None => Vec::new(),
                };
                assert(segment_views(list@) == targeted(old_view, b));
                list.push(segment);
                assert(segment_views(list@) =~= targeted(old_view, b).push(seg));
                targets.insert(b, list);
                self.segments_by_target_block = targets;
                assert(self@.segments_by_target_block =~= old_view.segments_by_target_block.insert(
                    b,
                    targeted(old_view, b).push(seg),
                ));
                assert(self@ =~= after_segment(old_view, seg));
                forward
            },
            None => {
                let forward = if valid {
                    Some(segment.clone())
                } else {
                    None
                };
                let mut current: Vec<BlobSegment> = Vec::new();
                assert(segment_pairs(current@) =~= Seq::empty());
                std::mem::swap(&mut current, &mut self.segments_for_current_block);
                insert_segment(&mut current, segment);
                self.segments_for_current_block = current;
                assert(self@ =~= after_segment(old_view, seg));
                forward
            },
        }
    }
    /// Hold back the submitted blob segments without a target block until
    /// `PENDING_INCLUSION_BLOCKS` blocks after the current one.
    pub fn on_submitted_partial_blobs(&mut self, partial_blobs: &Vec<PartialBlob>)
        requires
            old(self)@.current_block_number + PENDING_INCLUSION_BLOCKS <= u64::MAX,
        ensures
            final(self)@ == after_submitted(old(self)@, blob_views(partial_blobs@)),
    {
        proof {
            use_type_invariant(&*self);
        }
        let ghost old_view = self@;
        let ghost blobs = blob_views(partial_blobs@);
        let until = self.current_block_number + PENDING_INCLUSION_BLOCKS;
        let mut pending: Vec<([u8; 32], u64)> = Vec::new();
        std::mem::swap(&mut pending, &mut self.pending_expiration);
        let mut i: usize = 0;
        while i < partial_blobs.len()
            invariant
                blobs == blob_views(partial_blobs@),
                i <= partial_blobs.len(),
                keys_unique(pending@),
                keyed_map(pending@) == mark_blobs(old_view.pending_expiration, blobs.take(i as int), until),
            decreases partial_blobs.len() - i,
        {
            let segments = partial_blobs[i].segments();
            let ghost segs = segment_views(segments@);
            assert(segs == blobs[i as int].segments);
            let ghost base = keyed_map(pending@);
            let mut j: usize = 0;
            while j < segments.len()
                invariant
                    segs == segment_views(segments@),
                    j <= segments.len(),
                    keys_unique(pending@),
                    keyed_map(pending@) == mark_segments(base, segs.take(j as int), until),
                decreases segments.len() - j,
            {
                let segment = &segments[j];
                assert(segment@ == segs[j as int]);
                assert(segs.take(j + 1).drop_last() =~= segs.take(j as int));
                if segment.block.is_none() {
                    insert_pending(&mut pending, segment.hash, until);
                }
                j = j + 1;
            }
            assert(segs.take(j as int) =~= segs);
            assert(blobs.take(i + 1).drop_last() =~= blobs.take(i as int));
            i = i + 1;
        }
        assert(blobs.take(i as int) =~= blobs);
        self.pending_expiration = pending;
        assert(self@ =~= (AggregationStateView {
            pending_expiration: mark_blobs(old_view.pending_expiration, blobs, until),
            ..old_view
        }));
    }

    /// Handle block `number`, whose blob segment hashes are `mined`: drop the
    /// blob segments for the previous block that targeted it, are held back or
    /// were included; stop holding back the included ones; add the blob
    /// segments that target the new block. Returns the blob segments for the
    /// new block's aggregation task: those kept for it whose validity window
    /// holds the block's timestamp.
    pub fn on_new_head(&mut self, number: u64, timestamp: u64, mined: &Vec<[u8; 32]>) -> (segments: Vec<BlobSegment>)
        ensures
            final(self)@ == after_new_head(old(self)@, number, timestamp, mined@),
            keys_unique(segment_pairs(segments@)),
            segment_map(segments@) == restrict(final(self)@.segments_for_current_block, valid_at(timestamp)),
    {
        proof {
            use_type_invariant(&*self);
        }
        let ghost old_view = self@;
        let ghost keep = stays(old_view, number, mined@);
        let ghost cur_pairs = segment_pairs(self.segments_for_current_block@);

        // Blob segments for the current block that stay
        let mut kept: Vec<BlobSegment> = Vec::new();
        let mut i: usize = 0;
        while i < self.segments_for_current_block.len()
            invariant
                cur_pairs == segment_pairs(self.segments_for_current_block@),
                keys_unique(cur_pairs),
                keys_unique(self.pending_expiration@),
                old_view.pending_expiration == keyed_map(self.pending_expiration@),
                keep == stays(old_view, number, mined@),
                i <= self.segments_for_current_block.len(),
                keys_unique(segment_pairs(kept@)),
                segment_map(kept@) == restrict(keyed_map(cur_pairs.take(i as int)), keep),
                forall|q: int| 0 <= q < kept.len() ==> keyed_map(cur_pairs.take(i as int)).contains_key(#[trigger] kept@[q].hash),
            decreases self.segments_for_current_block.len() - i,
        {
            let segment = &self.segments_for_current_block[i];
            assert(cur_pairs[i as int] == (segment.hash, segment@));
            let until = match find_pending(&self.pending_expiration, &segment.hash) {
                Some(k) => {
                    proof {
                        lemma_keyed_map_value(self.pending_expiration@, k as int);
                    }
                    self.pending_expiration[k].1
                },
                None => {
                    proof {
                        lemma_keyed_map_dom(self.pending_expiration@);
                    }
                    0
                },
            };
            assert(until == pending_until(old_view.pending_expiration, segment.hash));
            let stays_now = segment.block.is_none() && until < number && !contains_hash(mined, &segment.hash);
            assert(stays_now == keep(segment.hash, segment@));
            proof {
                lemma_restrict_step(cur_pairs, i as int, keep);
                lemma_keyed_map_dom(cur_pairs.take(i as int));
                lemma_keyed_map_dom(cur_pairs.take(i + 1));
                assert(cur_pairs.take(i + 1) =~= cur_pairs.take(i as int).push(cur_pairs[i as int]));
            }
            if stays_now {
                let ghost old_pairs = segment_pairs(kept@);
                let c = segment.clone();
                kept.push(c);
                proof {
                    lemma_keyed_map_push(old_pairs, c.hash, c@);
                    assert(segment_pairs(kept@) =~= old_pairs.push((c.hash, c@)));
                    assert forall|q: int| 0 <= q < old_pairs.len() implies old_pairs[q].0 != c.hash by {
                        assert(old_pairs[q].0 == kept@[q].hash);
                    }
                }
            }
            proof {
                assert forall|q: int| 0 <= q < kept.len() implies keyed_map(cur_pairs.take(i + 1)).contains_key(
                    #[trigger] kept@[q].hash,
                ) by {
                    if q < kept.len() - 1 || !stays_now {
                        assert(keyed_map(cur_pairs.take(i as int)).contains_key(kept@[q].hash));
                        let p = choose|p: int| 0 <= p < cur_pairs.take(i as int).len() && cur_pairs.take(i as int)[p].0 == kept@[q].hash;
                        assert(cur_pairs.take(i + 1)[p].0 == kept@[q].hash);
                    } else {
                        assert(cur_pairs.take(i + 1)[i as int].0 == kept@[q].hash);
                    }
                }
            }
            i = i + 1;
        }
        proof {
            lemma_take_all(cur_pairs);
        }

        // Included blob segments are no longer held back
        let ghost pend = self.pending_expiration@;
        let ghost keep_pending = not_mined(mined@);
        let mut pending: Vec<([u8; 32], u64)> = Vec::new();
        let mut k: usize = 0;
        while k < self.pending_expiration.len()
            invariant
                pend == self.pending_expiration@,
                keys_unique(pend),
                keep_pending == not_mined(mined@),
                k <= pend.len(),
                keys_unique(pending@),
                keyed_map(pending@) == restrict(keyed_map(pend.take(k as int)), keep_pending),
                forall|q: int| 0 <= q < pending.len() ==> keyed_map(pend.take(k as int)).contains_key(#[trigger] pending@[q].0),
            decreases pend.len() - k,
        {
            let entry = self.pending_expiration[k];
            proof {
                lemma_restrict_step(pend, k as int, keep_pending);
                lemma_keyed_map_dom(pend.take(k as int));
                lemma_keyed_map_dom(pend.take(k + 1));
                assert(pend.take(k + 1) =~= pend.take(k as int).push(pend[k as int]));
            }
            let not_included = !contains_hash(mined, &entry.0);
            if not_included {
                let ghost old_p = pending@;
                pending.push(entry);
                proof {
                    lemma_keyed_map_push(old_p, entry.0, entry.1);
                    assert forall|q: int| 0 <= q < old_p.len() implies old_p[q].0 != entry.0 by {}
                }
            }
            proof {
                assert forall|q: int| 0 <= q < pending.len() implies keyed_map(pend.take(k + 1)).contains_key(
                    #[trigger] pending@[q].0,
                ) by {
                    if q < pending.len() - 1 || !not_included {
                        assert(keyed_map(pend.take(k as int)).contains_key(pending@[q].0));
                        let p = choose|p: int| 0 <= p < pend.take(k as int).len() && pend.take(k as int)[p].0 == pending@[q].0;
                        assert(pend.take(k + 1)[p].0 == pending@[q].0);
                    } else {
                        assert(pend.take(k + 1)[k as int].0 == pending@[q].0);
                    }
                }
            }
            k = k + 1;
        }
        proof {
            lemma_take_all(pend);
        }

        // Blob segments that target the new block
        let ghost base = segment_map(kept@);
        let ghost targets = targeted(old_view, number);
        match self.segments_by_target_block.get(&number) {
            Some(list) => {
                assert(segment_views(list@) == targets);
                let mut j: usize = 0;
                while j < list.len()
                    invariant
                        segment_views(list@) == targets,
                        j <= list.len(),
                        keys_unique(segment_pairs(kept@)),
                        segment_map(kept@) == insert_all(base, targets.take(j as int)),
                    decreases list.len() - j,
                {
                    let c = list[j].clone();
                    assert(c@ == targets[j as int]);
                    insert_segment(&mut kept, c);
                    j = j + 1;
                    assert(targets.take(j as int).drop_last() =~= targets.take(j - 1));
                }
                assert(targets.take(j as int) =~= targets);
            },
            None => {
                assert(targets =~= Seq::<BlobSegmentView>::empty());
            },
        }

        // The blob segments valid at the new block's timestamp go to its aggregation task
        let ghost kept_pairs = segment_pairs(kept@);
        let ghost valid = valid_at(timestamp);
        let mut segments: Vec<BlobSegment> = Vec::new();
        let mut q: usize = 0;
        while q < kept.len()
            invariant
                kept_pairs == segment_pairs(kept@),
                keys_unique(kept_pairs),
                valid == valid_at(timestamp),
                q <= kept.len(),
                keys_unique(segment_pairs(segments@)),
                segment_map(segments@) == restrict(keyed_map(kept_pairs.take(q as int)), valid),
                forall|r: int|
                    0 <= r < segments.len() ==> keyed_map(kept_pairs.take(q as int)).contains_key(
                        #[trigger] segments@[r].hash,
                    ),
            decreases kept.len() - q,
        {
            let segment = &kept[q];
            assert(kept_pairs[q as int] == (segment.hash, segment@));
            proof {
                lemma_restrict_step(kept_pairs, q as int, valid);
                lemma_keyed_map_dom(kept_pairs.take(q as int));
                lemma_keyed_map_dom(kept_pairs.take(q + 1));
                assert(kept_pairs.take(q + 1) =~= kept_pairs.take(q as int).push(kept_pairs[q as int]));
            }
            let is_valid = within_window(segment, timestamp);
            assert(is_valid == valid(segment.hash, segment@));
            if is_valid {
                let ghost old_pairs = segment_pairs(segments@);
                let c = segment.clone();
                segments.push(c);
                proof {
                    lemma_keyed_map_push(old_pairs, c.hash, c@);
                    assert(segment_pairs(segments@) =~= old_pairs.push((c.hash, c@)));
                    assert forall|r: int| 0 <= r < old_pairs.len() implies old_pairs[r].0 != c.hash by {
                        assert(old_pairs[r].0 == segments@[r].hash);
                    }
                }
            }
            proof {
                assert forall|r: int| 0 <= r < segments.len() implies keyed_map(kept_pairs.take(q + 1)).contains_key(
                    #[trigger] segments@[r].hash,
                ) by {
                    if r < segments.len() - 1 || !is_valid {
                        assert(keyed_map(kept_pairs.take(q as int)).contains_key(segments@[r].hash));
                        let p = choose|p: int|
                            0 <= p < kept_pairs.take(q as int).len() && kept_pairs.take(q as int)[p].0
                                == segments@[r].hash;
                        assert(kept_pairs.take(q + 1)[p].0 == segments@[r].hash);
                    } else {
                        assert(kept_pairs.take(q + 1)[q as int].0 == segments@[r].hash);
                    }
                }
            }
            q = q + 1;
        }
        proof {
            lemma_take_all(kept_pairs);
        }
        self.current_block_number = number;
        self.current_block_timestamp = timestamp;
        self.segments_for_current_block = kept;
        self.pending_expiration = pending;
        assert(self@ =~= after_new_head(old_view, number, timestamp, mined@));
        segments
    }
}

/// Marking keeps or sets `until` for every hash marked before or now.
proof fn lemma_mark_segments(p: Map<[u8; 32], u64>, segs: Seq<BlobSegmentView>, until: u64, h: [u8; 32])
    requires
        (p.contains_key(h) && p[h] == until) || exists|j: int|
            0 <= j < segs.len() && (#[trigger] segs[j]).block is None && segs[j].hash == h,
    ensures
        mark_segments(p, segs, until).contains_key(h),
        mark_segments(p, segs, until)[h] == until,
    decreases segs.len(),
{
    if segs.len() > 0 {
        let last = segs.last();
        if !(last.block is None && last.hash == h) {
            if !(p.contains_key(h) && p[h] == until) {
                let j = choose|j: int| 0 <= j < segs.len() && (#[trigger] segs[j]).block is None && segs[j].hash == h;
                assert(j < segs.len() - 1);
                assert(segs.drop_last()[j] == segs[j]);
            }
            lemma_mark_segments(p, segs.drop_last(), until, h);
        }
    }
}

proof fn lemma_mark_blobs(p: Map<[u8; 32], u64>, blobs: Seq<PartialBlobView>, until: u64, h: [u8; 32])
    requires
        submitted_unbound(blobs, h),
    ensures
        mark_blobs(p, blobs, until).contains_key(h),
        mark_blobs(p, blobs, until)[h] == until,
    decreases blobs.len(),
{
    let (i, j) = choose|i: int, j: int|
        0 <= i < blobs.len() && 0 <= j < blobs[i].segments.len() && (#[trigger] blobs[i].segments[j]).block
            is None && blobs[i].segments[j].hash == h;
    let q = mark_blobs(p, blobs.drop_last(), until);
    if i == blobs.len() - 1 {
        assert(blobs.last().segments[j] == blobs[i].segments[j]);
        lemma_mark_segments(q, blobs.last().segments, until, h);
    } else {
        assert(blobs.drop_last()[i].segments[j] == blobs[i].segments[j]);
        assert(submitted_unbound(blobs.drop_last(), h));
        lemma_mark_blobs(p, blobs.drop_last(), until, h);
        lemma_mark_segments(q, blobs.last().segments, until, h);
    }
}

/// The hashes `insert_all` adds are those of the inserted segments.
proof fn lemma_insert_all_keys(m: Map<[u8; 32], BlobSegmentView>, segs: Seq<BlobSegmentView>, h: [u8; 32])
    ensures
        insert_all(m, segs).contains_key(h) <==> (m.contains_key(h) || exists|j: int|
            0 <= j < segs.len() && (#[trigger] segs[j]).hash == h),
    decreases segs.len(),
{
    if segs.len() > 0 {
        lemma_insert_all_keys(m, segs.drop_last(), h);
        if exists|j: int| 0 <= j < segs.len() && (#[trigger] segs[j]).hash == h {
            let j = choose|j: int| 0 <= j < segs.len() && (#[trigger] segs[j]).hash == h;
            if j < segs.len() - 1 {
                assert(segs.drop_last()[j] == segs[j]);
            }
        }
        if exists|j: int| 0 <= j < segs.drop_last().len() && (#[trigger] segs.drop_last()[j]).hash == h {
            let j = choose|j: int| 0 <= j < segs.drop_last().len() && (#[trigger] segs.drop_last()[j]).hash == h;
            assert(segs[j] == segs.drop_last()[j]);
        }
    }
}

proof fn lemma_insert_all_consistent(m: Map<[u8; 32], BlobSegmentView>, segs: Seq<BlobSegmentView>, number: u64)
    requires
        forall|h: [u8; 32]| #[trigger] m.contains_key(h) ==> m[h].block is None,
        forall|j: int| 0 <= j < segs.len() ==> (#[trigger] segs[j]).block == Some(number),
    ensures
        forall|h: [u8; 32]|
            #[trigger] insert_all(m, segs).contains_key(h) ==> (insert_all(m, segs)[h].block is None
                || insert_all(m, segs)[h].block == Some(number)),
    decreases segs.len(),
{
    if segs.len() > 0 {
        assert forall|j: int| 0 <= j < segs.drop_last().len() implies (#[trigger] segs.drop_last()[j]).block
            == Some(number) by {
            assert(segs.drop_last()[j] == segs[j]);
        }
        lemma_insert_all_consistent(m, segs.drop_last(), number);
        assert(segs.last() == segs[segs.len() - 1]);
    }
}

/// A new block hands its aggregation task no blob segment that targets another
/// block: those of earlier blocks expire, and every blob segment kept for the
/// current block has no target block or targets the new one.
pub proof fn lemma_no_expired_segments(s: AggregationStateView, number: u64, timestamp: u64, mined: Seq<[u8; 32]>)
    requires
        targets_consistent(s),
    ensures
        current_consistent(after_new_head(s, number, timestamp, mined)),
        targets_consistent(after_new_head(s, number, timestamp, mined)),
{
    let kept = restrict(s.segments_for_current_block, stays(s, number, mined));
    assert forall|j: int| 0 <= j < targeted(s, number).len() implies (#[trigger] targeted(s, number)[j]).block
        == Some(number) by {
        assert(s.segments_by_target_block[number][j].block == Some(number));
    }
    lemma_insert_all_consistent(kept, targeted(s, number), number);
}

/// Arriving and submitted blob segments keep every blob segment under the block
/// it targets, and the blob segments for the current block without a target
/// block or targeting the current block.
pub proof fn lemma_consistency_kept(s: AggregationStateView, segment: BlobSegmentView, blobs: Seq<PartialBlobView>)
    requires
        targets_consistent(s),
        current_consistent(s),
    ensures
        targets_consistent(after_segment(s, segment)),
        current_consistent(after_segment(s, segment)),
        targets_consistent(after_submitted(s, blobs)),
        current_consistent(after_submitted(s, blobs)),
{
    let s1 = after_segment(s, segment);
    if let Some(b) = segment.block {
        assert forall|c: u64, j: int|
            s1.segments_by_target_block.contains_key(c) && 0 <= j < s1.segments_by_target_block[c].len()
                implies #[trigger] s1.segments_by_target_block[c][j].block == Some(c) by {
            if c == b {
                if j < targeted(s, b).len() {
                    assert(targeted(s, b).push(segment)[j] == targeted(s, b)[j]);
                    assert(s.segments_by_target_block[b][j].block == Some(b));
                }
            } else {
                assert(s.segments_by_target_block[c][j].block == Some(c));
            }
        }
    }
}

proof fn lemma_mark_segments_other(p: Map<[u8; 32], u64>, segs: Seq<BlobSegmentView>, until: u64, h: [u8; 32])
    requires
        forall|j: int| 0 <= j < segs.len() ==> !((#[trigger] segs[j]).block is None && segs[j].hash == h),
    ensures
        mark_segments(p, segs, until).contains_key(h) == p.contains_key(h),
        p.contains_key(h) ==> mark_segments(p, segs, until)[h] == p[h],
    decreases segs.len(),
{
    if segs.len() > 0 {
        assert(segs.last() == segs[segs.len() - 1]);
        assert forall|j: int| 0 <= j < segs.drop_last().len() implies !((#[trigger] segs.drop_last()[j]).block
            is None && segs.drop_last()[j].hash == h) by {
            assert(segs.drop_last()[j] == segs[j]);
        }
        lemma_mark_segments_other(p, segs.drop_last(), until, h);
    }
}

proof fn lemma_mark_blobs_other(p: Map<[u8; 32], u64>, blobs: Seq<PartialBlobView>, until: u64, h: [u8; 32])
    requires
        !submitted_unbound(blobs, h),
    ensures
        mark_blobs(p, blobs, until).contains_key(h) == p.contains_key(h),
        p.contains_key(h) ==> mark_blobs(p, blobs, until)[h] == p[h],
    decreases blobs.len(),
{
    if blobs.len() > 0 {
        let last = blobs.len() - 1;
        assert(blobs.last() == blobs[last]);
        assert forall|j: int| 0 <= j < blobs.last().segments.len() implies !((#[trigger] blobs.last().segments[j]).block
            is None && blobs.last().segments[j].hash == h) by {
            if blobs.last().segments[j].block is None && blobs.last().segments[j].hash == h {
                assert(blobs[last].segments[j] == blobs.last().segments[j]);
                assert(submitted_unbound(blobs, h));
            }
        }
        if submitted_unbound(blobs.drop_last(), h) {
            let (i, j) = choose|i: int, j: int|
                0 <= i < blobs.drop_last().len() && 0 <= j < blobs.drop_last()[i].segments.len()
                    && (#[trigger] blobs.drop_last()[i].segments[j]).block is None
                    && blobs.drop_last()[i].segments[j].hash == h;
            assert(blobs[i].segments[j] == blobs.drop_last()[i].segments[j]);
            assert(submitted_unbound(blobs, h));
        }
        lemma_mark_blobs_other(p, blobs.drop_last(), until, h);
        lemma_mark_segments_other(mark_blobs(p, blobs.drop_last(), until), blobs.last().segments, until, h);
    }
}

/// After partial blobs are submitted, each of their blob segments without a
/// target block is held back until `PENDING_INCLUSION_BLOCKS` blocks after the
/// current one; every other hash keeps the hold-back it had, or none.
pub proof fn lemma_submitted_hold_back(s: AggregationStateView, blobs: Seq<PartialBlobView>, h: [u8; 32])
    requires
        s.current_block_number + PENDING_INCLUSION_BLOCKS <= u64::MAX,
    ensures
        submitted_unbound(blobs, h) ==> after_submitted(s, blobs).pending_expiration.contains_key(h)
            && after_submitted(s, blobs).pending_expiration[h] == s.current_block_number + PENDING_INCLUSION_BLOCKS,
        !submitted_unbound(blobs, h) ==> after_submitted(s, blobs).pending_expiration.contains_key(h)
            == s.pending_expiration.contains_key(h),
        !submitted_unbound(blobs, h) && s.pending_expiration.contains_key(h) ==> after_submitted(
            s,
            blobs,
        ).pending_expiration[h] == s.pending_expiration[h],
{
    let until = (s.current_block_number + PENDING_INCLUSION_BLOCKS) as u64;
    if submitted_unbound(blobs, h) {
        lemma_mark_blobs(s.pending_expiration, blobs, until, h);
    } else {
        lemma_mark_blobs_other(s.pending_expiration, blobs, until, h);
    }
}

/// A blob segment without a target block that was submitted is not handed to
/// the aggregation task of any of the next `PENDING_INCLUSION_BLOCKS` blocks
/// (unless a blob segment with its hash targets that block), so it is not
/// included on-chain twice.
pub proof fn lemma_submitted_segment_held_back(
    s: AggregationStateView,
    blobs: Seq<PartialBlobView>,
    number: u64,
    timestamp: u64,
    mined: Seq<[u8; 32]>,
    h: [u8; 32],
)
    requires
        s.current_block_number + PENDING_INCLUSION_BLOCKS <= u64::MAX,
        submitted_unbound(blobs, h),
        number <= s.current_block_number + PENDING_INCLUSION_BLOCKS,
        forall|j: int| 0 <= j < targeted(s, number).len() ==> (#[trigger] targeted(s, number)[j]).hash != h,
    ensures
        !after_new_head(after_submitted(s, blobs), number, timestamp, mined).segments_for_current_block.contains_key(h),
{
    let s1 = after_submitted(s, blobs);
    lemma_mark_blobs(s.pending_expiration, blobs, (s.current_block_number + PENDING_INCLUSION_BLOCKS) as u64, h);
    assert(!restrict(s1.segments_for_current_block, stays(s1, number, mined)).contains_key(h));
    assert(targeted(s1, number) == targeted(s, number));
    lemma_insert_all_keys(restrict(s1.segments_for_current_block, stays(s1, number, mined)), targeted(s1, number), h);
}

/// A blob segment included in the new block is neither handed to its
/// aggregation task (unless a blob segment with its hash targets that block)
/// nor held back any longer.
pub proof fn lemma_mined_segment_dropped(
    s: AggregationStateView,
    number: u64,
    timestamp: u64,
    mined: Seq<[u8; 32]>,
    h: [u8; 32],
)
    requires
        mined.contains(h),
        forall|j: int| 0 <= j < targeted(s, number).len() ==> (#[trigger] targeted(s, number)[j]).hash != h,
    ensures
        !after_new_head(s, number, timestamp, mined).segments_for_current_block.contains_key(h),
        !after_new_head(s, number, timestamp, mined).pending_expiration.contains_key(h),
{
    lemma_insert_all_keys(restrict(s.segments_for_current_block, stays(s, number, mined)), targeted(s, number), h);
}

proof fn lemma_insert_all_last(m: Map<[u8; 32], BlobSegmentView>, segs: Seq<BlobSegmentView>, j: int)
    requires
        0 <= j < segs.len(),
        forall|k: int| j < k < segs.len() ==> (#[trigger] segs[k]).hash != segs[j].hash,
    ensures
        insert_all(m, segs).contains_key(segs[j].hash),
        insert_all(m, segs)[segs[j].hash] == segs[j],
    decreases segs.len(),
{
    if j < segs.len() - 1 {
        assert(segs.last() == segs[segs.len() - 1]);
        assert forall|k: int| j < k < segs.drop_last().len() implies (#[trigger] segs.drop_last()[k]).hash
            != segs.drop_last()[j].hash by {
            assert(segs.drop_last()[k] == segs[k]);
        }
        lemma_insert_all_last(m, segs.drop_last(), j);
        assert(segs.drop_last()[j] == segs[j]);
    }
}

/// Every blob segment that targets the new block (and is not replaced by a
/// later one with its hash) is kept for the new block, and handed to its
/// aggregation task exactly when the block's timestamp lies in its validity
/// window.
pub proof fn lemma_targeted_segments_handed_over(
    s: AggregationStateView,
    number: u64,
    timestamp: u64,
    mined: Seq<[u8; 32]>,
    j: int,
)
    requires
        0 <= j < targeted(s, number).len(),
        forall|k: int|
            j < k < targeted(s, number).len() ==> (#[trigger] targeted(s, number)[k]).hash != targeted(
                s,
                number,
            )[j].hash,
    ensures
        after_new_head(s, number, timestamp, mined).segments_for_current_block.contains_key(targeted(s, number)[j].hash),
        after_new_head(s, number, timestamp, mined).segments_for_current_block[targeted(s, number)[j].hash]
            == targeted(s, number)[j],
        restrict(after_new_head(s, number, timestamp, mined).segments_for_current_block, valid_at(timestamp)).contains_key(
            targeted(s, number)[j].hash,
        ) <==> in_window(targeted(s, number)[j], timestamp),
{
    lemma_insert_all_last(
        restrict(s.segments_for_current_block, stays(s, number, mined)),
        targeted(s, number),
        j,
    );
}

/// No blob segment is handed to a block's aggregation task, on arrival or when
/// the block arrives, unless the block's timestamp lies in its validity window.
pub proof fn lemma_handed_segments_valid(
    s: AggregationStateView,
    segment: BlobSegmentView,
    number: u64,
    timestamp: u64,
    mined: Seq<[u8; 32]>,
    h: [u8; 32],
)
    ensures
        forwarded_now(s, segment) ==> in_window(segment, s.current_block_timestamp),
        restrict(after_new_head(s, number, timestamp, mined).segments_for_current_block, valid_at(timestamp)).contains_key(h)
            ==> in_window(
            restrict(after_new_head(s, number, timestamp, mined).segments_for_current_block, valid_at(timestamp))[h],
            timestamp,
        ),
{
}

/// A blob segment without a target block is kept for the current block as it
/// arrives, and one with a target block is kept, after those before it, for
/// that block.
pub proof fn lemma_segment_kept(s: AggregationStateView, segment: BlobSegmentView)
    ensures
        segment.block is None ==> after_segment(s, segment).segments_for_current_block.contains_key(segment.hash)
            && after_segment(s, segment).segments_for_current_block[segment.hash] == segment,
        segment.block matches Some(b) ==> targeted(after_segment(s, segment), b) == targeted(s, b).push(segment),
{
}

/// A new head leaves the blob segments kept for every target block as they
/// were: those for later blocks still wait for their block.
pub proof fn lemma_new_head_keeps_targets(
    s: AggregationStateView,
    number: u64,
    timestamp: u64,
    mined: Seq<[u8; 32]>,
    b: u64,
)
    ensures
        targeted(after_new_head(s, number, timestamp, mined), b) == targeted(s, b),
        after_new_head(s, number, timestamp, mined).segments_by_target_block.contains_key(b)
            == s.segments_by_target_block.contains_key(b),
{
}

/// Keeping an arriving blob segment keeps every other one: the blob segments
/// for the current block under any other hash, and those for any other target
/// block, are as they were; the block, its timestamp and the hold-backs are
/// unchanged.
pub proof fn lemma_segment_keeps_others(s: AggregationStateView, segment: BlobSegmentView, h: [u8; 32], b: u64)
    ensures
        h != segment.hash ==> (after_segment(s, segment).segments_for_current_block.contains_key(h)
            <==> s.segments_for_current_block.contains_key(h)),
        h != segment.hash && s.segments_for_current_block.contains_key(h) ==> after_segment(
            s,
            segment,
        ).segments_for_current_block[h] == s.segments_for_current_block[h],
        segment.block != Some(b) ==> targeted(after_segment(s, segment), b) == targeted(s, b),
        segment.block is Some ==> after_segment(s, segment).segments_for_current_block
            == s.segments_for_current_block,
        after_segment(s, segment).current_block_number == s.current_block_number,
        after_segment(s, segment).current_block_timestamp == s.current_block_timestamp,
        after_segment(s, segment).pending_expiration == s.pending_expiration,
{
}

/// Recording a submission changes only the hold-backs: the blob segments kept
/// for the current block and for every target block, the block number and its
/// timestamp are as they were.
pub proof fn lemma_submission_changes_only_hold_backs(s: AggregationStateView, blobs: Seq<PartialBlobView>)
    ensures
        after_submitted(s, blobs).segments_for_current_block == s.segments_for_current_block,
        after_submitted(s, blobs).segments_by_target_block == s.segments_by_target_block,
        after_submitted(s, blobs).current_block_number == s.current_block_number,
        after_submitted(s, blobs).current_block_timestamp == s.current_block_timestamp,
{
}

} // verus!

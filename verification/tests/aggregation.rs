use blobsy_aggregator::building::appending_blob_aggregator::{append_segment, appending_duration_nanos};
use blobsy_aggregator::building::blob_aggregator::AggregationState;
use blobsy_aggregator::building::partial_blob::PartialBlob;
use blobsy_aggregator::primitives::blob_segment::{BlobSegment, Metadata};
use std::cmp::Ordering;

fn segment(data: Vec<u8>, block: Option<u64>, hash: u8, fee: u128) -> BlobSegment {
    BlobSegment {
        block,
        min_timestamp: None,
        max_timestamp: None,
        max_blob_segment_fee: fee,
        blob_segment_data: data,
        callback_contract: None,
        callback_payload: None,
        hash: [hash; 32],
        uuid: [0u8; 16],
        metadata: Metadata::default(),
    }
}

#[test]
fn segment_is_appended_to_first_blob_with_room() {
    let full = PartialBlob::new(vec![], vec![0u8; 130_040], 5);
    let roomy = PartialBlob::new(vec![segment(vec![1; 4], None, 1, 2)], vec![1u8; 4], 2);
    let seg = segment(vec![2u8; 10], None, 2, 7);
    let next = append_segment(&vec![full, roomy], &seg);
    assert_eq!(next.len(), 2);
    // The full blob stays as it was
    assert_eq!(next[0].data(), &vec![0u8; 130_040]);
    assert_eq!(next[0].total_fee(), 5);
    assert!(next[0].segments().is_empty());
    // The segment is appended to the first blob with room
    assert_eq!(next[1].data(), &[vec![1u8; 4], vec![2u8; 10]].concat());
    assert_eq!(next[1].segments().len(), 2);
    assert_eq!(next[1].total_fee(), 9);

    // A segment small enough for the first blob goes there, the second stays
    let again = append_segment(&next, &segment(vec![3u8; 2], None, 3, 1));
    assert_eq!(again.len(), 2);
    assert_eq!(again[0].data(), &[vec![0u8; 130_040], vec![3u8; 2]].concat());
    assert_eq!(again[1].data(), next[1].data());
}

#[test]
fn earlier_segments_stay_when_blobs_fill_up() {
    let mut blobs: Vec<PartialBlob> = vec![];
    for k in 0..3u8 {
        blobs = append_segment(&blobs, &segment(vec![k; 100_000], None, k, 1));
    }
    // Each segment fills most of a blob, so each starts a new one
    assert_eq!(blobs.len(), 3);
    for (k, blob) in blobs.iter().enumerate() {
        assert_eq!(blob.segments().len(), 1);
        assert_eq!(blob.segments()[0].hash, [k as u8; 32]);
        assert_eq!(blob.data(), &vec![k as u8; 100_000]);
    }
}

#[test]
fn segment_starts_new_blob_when_none_has_room() {
    let full = PartialBlob::new(vec![], vec![0u8; 130_040], 5);
    let seg = segment(vec![2u8; 10], None, 2, 7);
    let next = append_segment(&vec![full], &seg);
    assert_eq!(next.len(), 2);
    assert_eq!(next[0].data(), &vec![0u8; 130_040]);
    assert_eq!(next[1].data(), &vec![2u8; 10]);
    assert_eq!(next[1].total_fee(), 7);
    let first = append_segment(&vec![], &seg);
    assert_eq!(first.len(), 1);
}

#[test]
fn can_append_counts_length_prefix() {
    let blob = PartialBlob::new(vec![], vec![0u8; 130_000], 0);
    // 130000 + 43 + 4 = 130047 < 130048
    assert!(blob.can_append_segment(&[0u8; 43]));
    // 130000 + 44 + 4 = 130048
    assert!(!blob.can_append_segment(&[0u8; 44]));
}

#[test]
fn partial_blobs_order_by_descending_fee() {
    let cheap = PartialBlob::new(vec![], vec![], 1);
    let dear = PartialBlob::new(vec![], vec![], 9);
    assert_eq!(dear.cmp(&cheap), Ordering::Less);
    assert_eq!(cheap.cmp(&dear), Ordering::Greater);
    assert_eq!(cheap.partial_cmp(&cheap.clone()), Some(Ordering::Equal));
    // The dearer blob comes first: the other methods agree with `cmp`
    assert!(dear.lt(&cheap));
    assert!(!cheap.lt(&dear));
    assert!(cheap.gt(&dear));
    assert!(dear.le(&cheap) && dear.le(&dear.clone()));
    assert!(cheap.ge(&dear) && !dear.ge(&cheap));
    // `max` is the later in the order (the cheaper), `min` the earlier
    assert_eq!(cheap.clone().max(dear.clone()).total_fee(), 1);
    assert_eq!(dear.clone().max(cheap.clone()).total_fee(), 1);
    assert_eq!(cheap.clone().min(dear.clone()).total_fee(), 9);
    assert_eq!(dear.clone().min(cheap.clone()).total_fee(), 9);
    // On a tie `max` gives the second argument, `min` the first
    let other_cheap = PartialBlob::new(vec![], vec![7], 1);
    assert_eq!(cheap.clone().max(other_cheap.clone()).data(), &vec![7u8]);
    assert!(cheap.clone().min(other_cheap).data().is_empty());
    // `clamp` between `dear` (first) and `cheap` (last)
    let mid = PartialBlob::new(vec![], vec![], 5);
    let dearest = PartialBlob::new(vec![], vec![], 20);
    let cheapest = PartialBlob::new(vec![], vec![], 0);
    assert_eq!(mid.clone().clamp(dear.clone(), cheap.clone()).total_fee(), 5);
    assert_eq!(dearest.clamp(dear.clone(), cheap.clone()).total_fee(), 9);
    assert_eq!(cheapest.clamp(dear, cheap).total_fee(), 1);
}

#[test]
fn appending_window_ends_a_second_before_the_slot() {
    // Block at t = 100 s, now 103.5 s: 11 s - 3.5 s = 7.5 s left
    assert_eq!(appending_duration_nanos(103_500_000_000, 100), 7_500_000_000);
}

#[test]
fn segments_without_target_go_to_current_block() {
    let mut state = AggregationState::new();
    let forwarded = state.on_blob_segment(segment(vec![1], None, 1, 0));
    assert!(forwarded.is_some());
    let handed = state.on_new_head(5, 60, &vec![]);
    assert_eq!(handed.len(), 1);
    assert_eq!(handed[0].hash, [1u8; 32]);
    assert_eq!(state.current_block_number(), 5);
}

#[test]
fn targeted_segments_wait_for_their_block() {
    let mut state = AggregationState::new();
    assert!(state.on_blob_segment(segment(vec![1], Some(7), 2, 0)).is_none());
    assert!(state.on_new_head(6, 72, &vec![]).is_empty());
    let handed = state.on_new_head(7, 84, &vec![]);
    assert_eq!(handed.len(), 1);
    assert_eq!(handed[0].hash, [2u8; 32]);
    // At block 7 a segment for block 7 is forwarded at once
    assert!(state.on_blob_segment(segment(vec![2], Some(7), 3, 0)).is_some());
    // and dropped at the next block
    assert!(state.on_new_head(8, 96, &vec![]).is_empty());
}

#[test]
fn submitted_segments_are_held_back_then_dropped_when_mined() {
    let mut state = AggregationState::new();
    state.on_new_head(100, 1200, &vec![]);
    let seg = segment(vec![1], None, 4, 0);
    state.on_blob_segment(seg.clone());
    let blob = PartialBlob::new(vec![seg], vec![1], 0);
    state.on_submitted_partial_blobs(&vec![blob]);
    // held back until block 110
    assert!(state.on_new_head(101, 1212, &vec![]).is_empty());
}

#[test]
fn pending_segment_comes_back_after_expiry() {
    let mut state = AggregationState::new();
    state.on_new_head(100, 1200, &vec![]);
    let seg = segment(vec![1], None, 4, 0);
    let blob = PartialBlob::new(vec![seg.clone()], vec![1], 0);
    state.on_submitted_partial_blobs(&vec![blob]);
    // arrives again while held back: kept but not handed over
    state.on_blob_segment(seg.clone());
    assert!(state.on_new_head(105, 1260, &vec![]).is_empty());
    // re-sent after the hold expired
    state.on_blob_segment(seg);
    assert_eq!(state.on_new_head(111, 1332, &vec![]).len(), 1);
}

#[test]
fn mined_segments_are_dropped() {
    let mut state = AggregationState::new();
    state.on_blob_segment(segment(vec![1], None, 5, 0));
    state.on_blob_segment(segment(vec![2], None, 6, 0));
    let handed = state.on_new_head(3, 36, &vec![[5u8; 32]]);
    assert_eq!(handed.len(), 1);
    assert_eq!(handed[0].hash, [6u8; 32]);
}

#[test]
fn same_hash_replaces_earlier_segment() {
    let mut state = AggregationState::new();
    state.on_blob_segment(segment(vec![1], None, 5, 1));
    state.on_blob_segment(segment(vec![2], None, 5, 2));
    let handed = state.on_new_head(1, 12, &vec![]);
    assert_eq!(handed.len(), 1);
    assert_eq!(handed[0].max_blob_segment_fee, 2);
}

#[test]
fn targeted_segments_expire_after_their_block() {
    let mut state = AggregationState::new();
    state.on_new_head(4, 48, &vec![]);
    assert!(state.on_blob_segment(segment(vec![1], Some(5), 1, 0)).is_none());
    state.on_blob_segment(segment(vec![2], None, 2, 0));

    // Block 5 hands over the segment targeting it and the one without a target
    let handed = state.on_new_head(5, 60, &vec![]);
    assert_eq!(handed.len(), 2);
    assert!(handed.iter().all(|s| s.block.is_none() || s.block == Some(5)));

    // Block 6 drops the expired one
    let handed = state.on_new_head(6, 72, &vec![]);
    assert_eq!(handed.len(), 1);
    assert_eq!(handed[0].block, None);
    assert_eq!(handed[0].hash, [2u8; 32]);
}

fn windowed(block: Option<u64>, hash: u8, min: Option<u64>, max: Option<u64>) -> BlobSegment {
    let mut s = segment(vec![hash], block, hash, 0);
    s.min_timestamp = min;
    s.max_timestamp = max;
    s
}

#[test]
fn segments_are_forwarded_only_inside_their_window() {
    let mut state = AggregationState::new();
    state.on_new_head(10, 1_000, &vec![]);
    // Window ended before the current block
    assert!(state.on_blob_segment(windowed(None, 1, None, Some(0))).is_none());
    // Window starts after the current block
    assert!(state.on_blob_segment(windowed(None, 2, Some(2_000), None)).is_none());
    // Window holds the current block, bounds included
    assert!(state.on_blob_segment(windowed(None, 3, Some(1_000), Some(1_000))).is_some());
    assert!(state.on_blob_segment(windowed(Some(10), 4, Some(500), Some(1_500))).is_some());
    assert!(state.on_blob_segment(windowed(Some(10), 5, Some(1_001), None)).is_none());
}

#[test]
fn segments_are_handed_over_only_inside_their_window() {
    let mut state = AggregationState::new();
    state.on_blob_segment(windowed(None, 1, Some(1_000), Some(2_000)));
    state.on_blob_segment(windowed(Some(3), 2, None, Some(35)));
    state.on_blob_segment(windowed(Some(4), 3, None, Some(35)));

    // At time 36 only the first would be valid, and it is not yet
    let handed = state.on_new_head(3, 36, &vec![]);
    assert!(handed.is_empty());
    // The untargeted one waits for its window
    let handed = state.on_new_head(4, 1_500, &vec![]);
    assert_eq!(handed.len(), 1);
    assert_eq!(handed[0].hash, [1u8; 32]);
    // After its window it is no longer handed over
    assert!(state.on_new_head(5, 2_001, &vec![]).is_empty());
}

#[test]
fn appending_keeps_blob_data_and_fees_consistent() {
    let mut blobs: Vec<PartialBlob> = vec![];
    let sizes = [60_000usize, 50_000, 30_000, 20_000, 1];
    for (k, n) in sizes.iter().enumerate() {
        blobs = append_segment(&blobs, &segment(vec![k as u8; *n], None, k as u8, k as u128 + 1));
    }
    let mut seen = 0;
    for blob in &blobs {
        let data: Vec<u8> = blob.segments().iter().flat_map(|s| s.blob_segment_data.clone()).collect();
        assert_eq!(blob.data(), &data);
        let fee: u128 = blob.segments().iter().map(|s| s.max_blob_segment_fee).sum();
        assert_eq!(blob.total_fee(), fee);
        seen += blob.segments().len();
    }
    assert_eq!(seen, sizes.len());
}

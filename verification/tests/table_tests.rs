use kbuckets::table::AddResult;
use kbuckets::table::Buckets;

/// The total number of entries recorded across all buckets.
fn total_entries(t: &Buckets) -> usize {
    let mut n = 0;
    for b in t.buckets.iter() {
        n += b.nodes.len();
    }
    n
}

/// The number of buckets whose (inclusive) range contains `id` and which
/// hold an entry for `id`.
fn findable_in(t: &Buckets, id: &[u8; 20]) -> usize {
    let mut n = 0;
    for b in t.buckets.iter() {
        let in_range = b.start <= *id && *id <= b.end;
        let held = b.nodes.iter().any(|e| e.id == *id);
        if in_range && held {
            n += 1;
        }
    }
    n
}

/// Whether the bucket ranges partition the whole space: the first range
/// starts at all-zero, the last ends at all-0xFF, and each range starts
/// exactly one past its predecessor's end.
fn ranges_partition_space(t: &Buckets) -> bool {
    if t.buckets.is_empty() {
        return false;
    }
    if t.buckets[0].start != [0u8; 20] {
        return false;
    }
    if t.buckets[t.buckets.len() - 1].end != [255u8; 20] {
        return false;
    }
    for w in 0..t.buckets.len() {
        if t.buckets[w].start > t.buckets[w].end {
            return false;
        }
        if w + 1 < t.buckets.len() {
            let mut succ = t.buckets[w].end;
            for i in (0..20).rev() {
                if succ[i] == 255 {
                    succ[i] = 0;
                } else {
                    succ[i] += 1;
                    break;
                }
            }
            if t.buckets[w + 1].start != succ {
                return false;
            }
        }
    }
    true
}

#[test]
fn test() {
    let mut buckets = Buckets::new_with_size([0; 20], 3).unwrap();

    buckets.add_node([1; 20]);
}

#[test]
fn new_table_is_seeded_with_own_id() {
    let t = Buckets::new([7u8; 20]);
    assert_eq!(t.max_bucket_size, 16);
    assert_eq!(t.buckets.len(), 1);
    assert_eq!(total_entries(&t), 1);
    assert!(t.contains(&[7u8; 20]));
    assert!(!t.contains(&[8u8; 20]));
    assert!(ranges_partition_space(&t));
}

#[test]
fn zero_bucket_size_is_rejected() {
    assert!(Buckets::new_with_size([0u8; 20], 0).is_none());
    assert!(Buckets::new_with_size([0u8; 20], 1).is_some());
}

#[test]
fn insert_then_reinsert_refreshes_in_place() {
    let mut t = Buckets::new_with_size([0u8; 20], 4).unwrap();
    let peer = [9u8; 20];
    assert_eq!(t.add_node(peer), AddResult::Inserted);
    let count = total_entries(&t);
    assert_eq!(count, 2);
    // re-inserting the same identifier leaves the entry count unchanged
    assert_eq!(t.add_node(peer), AddResult::Refreshed);
    assert_eq!(total_entries(&t), count);
    assert_eq!(t.add_node(peer), AddResult::Refreshed);
    assert_eq!(total_entries(&t), count);
    assert!(t.contains(&peer));
}

#[test]
fn reinserting_own_id_refreshes() {
    let mut t = Buckets::new([3u8; 20]);
    assert_eq!(t.add_node([3u8; 20]), AddResult::Refreshed);
    assert_eq!(total_entries(&t), 1);
}

#[test]
fn own_bucket_splits_until_far_key_fits() {
    let mut t = Buckets::new_with_size([0u8; 20], 1).unwrap();
    assert_eq!(t.add_node([255u8; 20]), AddResult::Inserted);
    assert!(t.buckets.len() >= 2);
    assert!(t.contains(&[0u8; 20]));
    assert!(t.contains(&[255u8; 20]));
    assert!(ranges_partition_space(&t));
    assert_eq!(findable_in(&t, &[0u8; 20]), 1);
    assert_eq!(findable_in(&t, &[255u8; 20]), 1);
}

#[test]
fn full_far_bucket_drops_overflow() {
    let mut t = Buckets::new_with_size([0u8; 20], 2).unwrap();
    assert_eq!(t.add_node([0xFFu8; 20]), AddResult::Inserted);
    // the initial bucket is now full and owns everything: this split keeps
    // the own identifier on the lower side and 0xFF… on the upper side
    assert_eq!(t.add_node([0xFEu8; 20]), AddResult::Inserted);
    assert!(t.contains(&[0xFEu8; 20]));
    assert!(t.contains(&[0xFFu8; 20]));
    // the far bucket holding 0xFE… and 0xFF… is full with 2 entries
    let before = total_entries(&t);
    let buckets_before = t.buckets.len();
    assert_eq!(t.add_node([0xFDu8; 20]), AddResult::Dropped);
    assert!(!t.contains(&[0xFDu8; 20]));
    assert_eq!(total_entries(&t), before);
    assert_eq!(t.buckets.len(), buckets_before);
    // dropping is stable: the same insertion is dropped again
    assert_eq!(t.add_node([0xFDu8; 20]), AddResult::Dropped);
    assert_eq!(total_entries(&t), before);
}

#[test]
fn near_peers_trigger_split_and_stay_findable() {
    let mut t = Buckets::new_with_size([0x00u8; 20], 3).unwrap();
    assert_eq!(t.add_node([0x01u8; 20]), AddResult::Inserted);
    assert_eq!(t.add_node([0x02u8; 20]), AddResult::Inserted);
    // the initial bucket now holds 3 entries (own id included) and is full,
    // so the next insertion splits the own bucket until the new peer fits
    assert_eq!(t.add_node([0x03u8; 20]), AddResult::Inserted);
    assert!(t.buckets.len() >= 2);
    assert!(ranges_partition_space(&t));
    for b in [[0x00u8; 20], [0x01u8; 20], [0x02u8; 20], [0x03u8; 20]] {
        assert!(t.contains(&b));
        assert_eq!(findable_in(&t, &b), 1);
    }
    // no bucket exceeds the configured maximum size
    for b in t.buckets.iter() {
        assert!(b.nodes.len() <= 3);
    }
}

#[test]
fn partition_holds_after_many_insertions() {
    let mut t = Buckets::new_with_size([0x55u8; 20], 2).unwrap();
    for x in 0u8..=20u8 {
        let mut id = [0u8; 20];
        id[0] = x.wrapping_mul(12);
        id[19] = x;
        t.add_node(id);
        assert!(ranges_partition_space(&t));
        for b in t.buckets.iter() {
            assert!(b.nodes.len() <= 2);
        }
    }
    assert!(t.contains(&[0x55u8; 20]));
}

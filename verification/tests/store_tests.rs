use slotmap::{HopSlotMap, Key, SlotMap};

#[test]
fn scenario_basic_access() {
    let mut sm = SlotMap::new();
    let f = sm.insert("foo");
    let b = sm.insert("bar");
    assert_eq!(sm.get(f), Some(&"foo"));
    assert_eq!(sm.get(b), Some(&"bar"));

    let mut hm = HopSlotMap::new();
    let f = hm.insert("foo");
    let b = hm.insert("bar");
    assert_eq!(hm.get(f), Some(&"foo"));
    assert_eq!(hm.get(b), Some(&"bar"));
}

#[test]
fn scenario_reuse_keeps_old_key_invalid() {
    let mut sm = SlotMap::new();
    let b = sm.insert("bar");
    assert_eq!(sm.remove(b), Some("bar"));
    let r = sm.insert("reuse");
    assert_eq!(sm.contains_key(b), false);
    assert_eq!(sm.get(r), Some(&"reuse"));
    assert_eq!(r.idx, b.idx);
    assert_ne!(r.version, b.version);

    let mut hm = HopSlotMap::new();
    let b = hm.insert("bar");
    assert_eq!(hm.remove(b), Some("bar"));
    let r = hm.insert("reuse");
    assert_eq!(hm.contains_key(b), false);
    assert_eq!(hm.get(r), Some(&"reuse"));
    assert_eq!(r.idx, b.idx);
    assert_ne!(r.version, b.version);
}

#[test]
fn scenario_iteration_after_removals() {
    // Insert ten elements, remove the third and the seventh, and iterate:
    // exactly the eight remaining values, in original relative order, for
    // both engines.
    let mut sm = SlotMap::new();
    let mut hm = HopSlotMap::new();
    let mut sk = Vec::new();
    let mut hk = Vec::new();
    for i in 0..10 {
        sk.push(sm.insert(i));
        hk.push(hm.insert(i));
    }
    sm.remove(sk[2]);
    sm.remove(sk[6]);
    hm.remove(hk[2]);
    hm.remove(hk[6]);
    let expected = vec![0, 1, 3, 4, 5, 7, 8, 9];
    assert_eq!(sm.values(), expected);
    assert_eq!(hm.values(), expected);
    assert_eq!(sm.len(), 8);
    assert_eq!(hm.len(), 8);
}

#[test]
fn live_keys_are_distinct() {
    let mut sm = SlotMap::new();
    let mut keys = Vec::new();
    for i in 0..8 {
        keys.push(sm.insert(i));
    }
    sm.remove(keys[1]);
    sm.remove(keys[4]);
    keys.push(sm.insert(100));
    keys.push(sm.insert(101));
    let live: Vec<Key> = sm.keys();
    for i in 0..live.len() {
        for j in (i + 1)..live.len() {
            assert_ne!(live[i], live[j]);
        }
    }
    assert_eq!(live.len(), sm.len() as usize);
}

#[test]
fn tombstone_is_permanent() {
    let mut sm = SlotMap::new();
    let a = sm.insert(1);
    let b = sm.insert(2);
    assert_eq!(sm.remove(b), Some(2));
    // Stale key stays dead through arbitrary later traffic on the slot.
    for round in 0..5 {
        let c = sm.insert(round + 10);
        assert_eq!(sm.get(b), None);
        assert_eq!(sm.contains_key(b), false);
        assert_eq!(sm.remove(b), None);
        sm.remove(c);
    }
    assert_eq!(sm.get(a), Some(&1));

    let mut hm = HopSlotMap::new();
    let a = hm.insert(1);
    let b = hm.insert(2);
    assert_eq!(hm.remove(b), Some(2));
    for round in 0..5 {
        let c = hm.insert(round + 10);
        assert_eq!(hm.get(b), None);
        assert_eq!(hm.contains_key(b), false);
        assert_eq!(hm.remove(b), None);
        hm.remove(c);
    }
    assert_eq!(hm.get(a), Some(&1));
}

#[test]
fn set_overwrites_only_valid_keys() {
    let mut sm = SlotMap::new();
    let k = sm.insert(5);
    assert!(sm.set(k, 7));
    assert_eq!(sm.get(k), Some(&7));
    sm.remove(k);
    assert!(!sm.set(k, 9));
    assert_eq!(sm.get(k), None);

    let mut hm = HopSlotMap::new();
    let k = hm.insert(5);
    assert!(hm.set(k, 7));
    assert_eq!(hm.get(k), Some(&7));
    hm.remove(k);
    assert!(!hm.set(k, 9));
    assert_eq!(hm.get(k), None);
}

#[test]
fn counters_track_liveness() {
    let mut sm = SlotMap::new();
    assert!(sm.is_empty());
    assert_eq!(sm.len(), 0);
    assert_eq!(sm.capacity(), 0);
    let a = sm.insert(1);
    let b = sm.insert(2);
    assert_eq!(sm.len(), 2);
    assert_eq!(sm.capacity(), 2);
    sm.remove(a);
    assert_eq!(sm.len(), 1);
    assert_eq!(sm.capacity(), 2);
    assert!(!sm.is_empty());
    sm.remove(b);
    assert!(sm.is_empty());
    assert_eq!(sm.capacity(), 2);
}

#[test]
fn drain_empties_the_store() {
    let mut sm = SlotMap::new();
    let mut keys = Vec::new();
    for i in 0..6 {
        keys.push(sm.insert(i * 10));
    }
    sm.remove(keys[3]);
    let drained = sm.drain();
    assert_eq!(drained, vec![0, 10, 20, 40, 50]);
    assert!(sm.is_empty());
    for k in keys {
        assert_eq!(sm.get(k), None);
    }
    // The emptied storage is reused by later inserts.
    let k = sm.insert(7);
    assert_eq!(sm.get(k), Some(&7));
    assert_eq!(sm.len(), 1);
}

#[test]
fn hop_iteration_skips_long_vacant_runs() {
    // Build adversarial vacancy patterns: drain the middle, then the ends,
    // with interleaved reinsertions at run boundaries.
    let mut hm = HopSlotMap::new();
    let mut keys = Vec::new();
    for i in 0..20 {
        keys.push(hm.insert(i));
    }
    // Carve a long vacant run in the middle.
    for i in 5..15 {
        assert_eq!(hm.remove(keys[i]), Some(i as i32));
    }
    let mut expected: Vec<i32> = (0..5).collect();
    expected.extend(15..20);
    assert_eq!(hm.values(), expected);
    // Chip at both boundaries of the run (merge-left and merge-right).
    hm.remove(keys[4]);
    hm.remove(keys[15]);
    let mut expected: Vec<i32> = (0..4).collect();
    expected.extend(16..20);
    assert_eq!(hm.values(), expected);
    // Punch an isolated hole, then merge it with both neighbours.
    hm.remove(keys[1]);
    hm.remove(keys[0]);
    hm.remove(keys[2]);
    hm.remove(keys[3]);
    assert_eq!(hm.values(), vec![16, 17, 18, 19]);
    // Refill: reused slots come from the vacant runs.
    let mut more = Vec::new();
    for i in 0..12 {
        more.push(hm.insert(100 + i));
    }
    assert_eq!(hm.len(), 16);
    for (i, k) in more.iter().enumerate() {
        assert_eq!(hm.get(*k), Some(&(100 + i as i32)));
    }
    // Full drain through remove, then reuse from empty.
    let all = hm.keys();
    for k in all {
        assert!(hm.remove(k).is_some());
    }
    assert!(hm.is_empty());
    assert_eq!(hm.values(), Vec::<i32>::new());
    let k = hm.insert(1);
    assert_eq!(hm.values(), vec![1]);
    assert_eq!(hm.get(k), Some(&1));
}

#[test]
fn engines_agree_on_contents() {
    // The same operation history applied to both engines yields the same
    // iterated contents.
    let mut sm = SlotMap::new();
    let mut hm = HopSlotMap::new();
    let mut sk = Vec::new();
    let mut hk = Vec::new();
    for i in 0..12 {
        sk.push(sm.insert(i));
        hk.push(hm.insert(i));
    }
    for i in [11, 0, 3, 4, 5] {
        sm.remove(sk[i]);
        hm.remove(hk[i]);
    }
    assert_eq!(sm.values(), hm.values());
    assert_eq!(sm.len(), hm.len());
    sk.push(sm.insert(50));
    hk.push(hm.insert(50));
    assert_eq!(sm.len(), hm.len());
}

#[test]
fn keys_pair_with_values_in_index_order() {
    let mut sm = SlotMap::new();
    let mut inserted = Vec::new();
    for i in 0..9 {
        inserted.push(sm.insert(i * 3));
    }
    sm.remove(inserted[0]);
    sm.remove(inserted[8]);
    let ks = sm.keys();
    let vs = sm.values();
    assert_eq!(ks.len(), vs.len());
    for j in 0..ks.len() {
        assert_eq!(sm.get(ks[j]), Some(&vs[j]));
        if j > 0 {
            assert!(ks[j - 1].idx < ks[j].idx);
        }
    }
}

#[test]
fn iter_yields_pairs_in_index_order() {
    let mut sm = SlotMap::new();
    let a = sm.insert("a");
    let b = sm.insert("b");
    let c = sm.insert("c");
    sm.remove(b);
    let pairs = sm.iter();
    assert_eq!(pairs.len(), 2);
    assert_eq!(pairs[0], (a, "a"));
    assert_eq!(pairs[1], (c, "c"));
}

use fixed_lru::LRUCache;

/// The values from the most to the least recently used.
fn listed<const N: usize>(cache: &mut LRUCache<u32, N>) -> Vec<u32> {
    let mut seen = Vec::new();
    let mut iter = cache.iter_mut();
    while let Some((_, val)) = iter.next(cache) {
        seen.push(*val);
    }
    seen
}

/// The slots from the most to the least recently used.
fn slots<const N: usize>(cache: &mut LRUCache<u32, N>) -> Vec<u16> {
    let mut seen = Vec::new();
    let mut iter = cache.iter_mut();
    while let Some((slot, _)) = iter.next(cache) {
        seen.push(slot);
    }
    seen
}

#[test]
fn len_grows_to_the_capacity_and_stays() {
    let mut cache = LRUCache::<u32, 4>::new();
    assert_eq!(cache.len(), 0);
    for i in 0..10u32 {
        cache.insert(i);
        let want = if i + 1 < 4 { i as usize + 1 } else { 4 };
        assert_eq!(cache.len(), want);
        assert!(cache.len() <= 4);
    }
}

#[test]
fn inserts_alone_evict_in_insertion_order() {
    let mut cache = LRUCache::<u32, 3>::new();
    assert_eq!(cache.insert(10), None);
    assert_eq!(cache.insert(11), None);
    assert_eq!(cache.insert(12), None);
    assert_eq!(cache.insert(13), Some(10));
    assert_eq!(cache.insert(14), Some(11));
    assert_eq!(cache.insert(15), Some(12));
    assert_eq!(cache.insert(16), Some(13));
    assert_eq!(listed(&mut cache), vec![16, 15, 14]);
}

#[test]
fn eviction_takes_the_value_unused_for_longest() {
    let mut cache = LRUCache::<u32, 3>::new();
    cache.insert(1);
    cache.insert(2);
    cache.insert(3);
    assert!(cache.touch(|v| *v == 1));
    assert_eq!(cache.insert(4), Some(2));
    assert_eq!(cache.find(|v| *v == 3), Some(&mut 3));
    assert_eq!(cache.insert(5), Some(1));
    assert_eq!(cache.insert(6), Some(4));
    assert_eq!(cache.insert(7), Some(3));
    assert_eq!(listed(&mut cache), vec![7, 6, 5]);
}

#[test]
fn inserted_value_is_listed_first() {
    let mut cache = LRUCache::<u32, 2>::new();
    for v in [5u32, 9, 7, 7, 1] {
        cache.insert(v);
        assert_eq!(listed(&mut cache)[0], v);
        assert_eq!(cache.front_mut(), Some(&mut v.clone()));
    }
}

#[test]
fn touch_moves_the_match_to_the_front_and_keeps_the_rest() {
    let mut cache = LRUCache::<u32, 5>::new();
    for v in 1..=5u32 {
        cache.insert(v);
    }
    assert_eq!(listed(&mut cache), vec![5, 4, 3, 2, 1]);
    assert!(cache.touch(|v| *v == 2));
    assert_eq!(listed(&mut cache), vec![2, 5, 4, 3, 1]);
    assert!(cache.touch(|v| *v == 1));
    assert_eq!(listed(&mut cache), vec![1, 2, 5, 4, 3]);
    assert!(cache.touch(|v| *v == 1));
    assert_eq!(listed(&mut cache), vec![1, 2, 5, 4, 3]);
    assert!(!cache.touch(|v| *v == 6));
    assert_eq!(listed(&mut cache), vec![1, 2, 5, 4, 3]);
    assert_eq!(cache.len(), 5);
}

#[test]
fn touch_stops_at_the_most_recent_match() {
    let mut cache = LRUCache::<u32, 4>::new();
    for v in [2u32, 3, 4, 5] {
        cache.insert(v);
    }
    assert!(cache.touch(|v| *v % 2 == 0));
    assert_eq!(listed(&mut cache), vec![4, 5, 3, 2]);
    assert_eq!(cache.find(|v| *v % 2 == 1), Some(&mut 5));
    assert_eq!(listed(&mut cache), vec![5, 4, 3, 2]);
}

#[test]
fn predicate_is_asked_from_the_front_until_it_matches() {
    let mut cache = LRUCache::<u32, 4>::new();
    for v in [1u32, 2, 3, 4] {
        cache.insert(v);
    }
    let mut asked = Vec::new();
    assert!(cache.touch(|v| {
        asked.push(*v);
        *v == 2
    }));
    assert_eq!(asked, vec![4, 3, 2]);
}

#[test]
fn find_without_a_match_changes_nothing() {
    let mut cache = LRUCache::<u32, 3>::new();
    cache.insert(1);
    cache.insert(2);
    assert_eq!(cache.find(|v| *v == 3), None);
    assert_eq!(listed(&mut cache), vec![2, 1]);
}

#[test]
fn value_found_can_be_changed_in_place() {
    let mut cache = LRUCache::<u32, 3>::new();
    cache.insert(1);
    cache.insert(2);
    cache.insert(3);
    if let Some(val) = cache.find(|v| *v == 1) {
        *val = 100;
    }
    assert_eq!(listed(&mut cache), vec![100, 3, 2]);
    assert_eq!(cache.insert(4), Some(2));
    assert_eq!(cache.insert(5), Some(3));
    assert_eq!(cache.insert(6), Some(100));
}

#[test]
fn cleared_cache_behaves_like_a_new_one() {
    let mut used = LRUCache::<u32, 3>::new();
    for v in [1u32, 2, 3, 4, 5] {
        used.insert(v);
    }
    used.touch(|v| *v == 3);
    used.clear();
    let mut fresh = LRUCache::<u32, 3>::new();
    for v in [7u32, 8, 9, 10, 11, 12] {
        assert_eq!(used.insert(v), fresh.insert(v));
        assert_eq!(used.len(), fresh.len());
        assert_eq!(listed(&mut used), listed(&mut fresh));
        assert_eq!(slots(&mut used), slots(&mut fresh));
    }
    assert_eq!(listed(&mut used), vec![12, 11, 10]);
}

#[test]
fn as_many_inserts_as_capacity_come_back_reversed() {
    let mut cache = LRUCache::<u32, 6>::new();
    let vals = [3u32, 1, 4, 15, 9, 2];
    for v in vals {
        assert_eq!(cache.insert(v), None);
    }
    assert_eq!(listed(&mut cache), vec![2, 9, 15, 4, 1, 3]);
}

#[test]
fn capacity_of_one_keeps_the_latest_value() {
    let mut cache = LRUCache::<u32, 1>::new();
    assert_eq!(cache.insert(1), None);
    assert_eq!(cache.insert(2), Some(1));
    assert_eq!(cache.insert(3), Some(2));
    assert_eq!(listed(&mut cache), vec![3]);
    assert!(cache.touch(|v| *v == 3));
    assert!(!cache.touch(|v| *v == 2));
    assert_eq!(listed(&mut cache), vec![3]);
    assert_eq!(cache.len(), 1);
}

#[test]
fn empty_cache_yields_nothing() {
    let mut cache = LRUCache::<u32, 3>::new();
    assert!(cache.is_empty());
    assert_eq!(cache.len(), 0);
    assert_eq!(listed(&mut cache), Vec::<u32>::new());
    assert_eq!(cache.front_mut(), None);
    assert!(!cache.touch(|_| true));
    assert_eq!(cache.find(|_| true), None);
    let mut iter = cache.iter_mut();
    assert!(iter.next(&mut cache).is_none());
    assert!(iter.next(&mut cache).is_none());
}

#[test]
fn cleared_cache_yields_nothing() {
    let mut cache = LRUCache::<u32, 3>::new();
    cache.insert(1);
    cache.insert(2);
    cache.touch(|v| *v == 1);
    cache.clear();
    assert!(cache.is_empty());
    assert_eq!(cache.front_mut(), None);
    assert_eq!(listed(&mut cache), Vec::<u32>::new());
    assert!(!cache.touch(|_| true));
}

#[test]
fn is_empty_follows_len() {
    let mut cache = LRUCache::<u32, 2>::new();
    assert!(cache.is_empty());
    cache.insert(1);
    assert!(!cache.is_empty());
    cache.insert(2);
    cache.insert(3);
    assert!(!cache.is_empty());
}

#[test]
fn iteration_ends_after_the_last_value() {
    let mut cache = LRUCache::<u32, 3>::new();
    cache.insert(1);
    cache.insert(2);
    let mut iter = cache.iter_mut();
    assert_eq!(iter.next(&mut cache), Some((1, &mut 2)));
    assert_eq!(iter.next(&mut cache), Some((0, &mut 1)));
    assert_eq!(iter.next(&mut cache), None);
    assert_eq!(iter.next(&mut cache), None);
}

#[test]
fn iteration_can_change_every_value() {
    let mut cache = LRUCache::<u32, 3>::new();
    cache.insert(1);
    cache.insert(2);
    cache.insert(3);
    let mut iter = cache.iter_mut();
    while let Some((_, val)) = iter.next(&mut cache) {
        *val *= 10;
    }
    assert_eq!(listed(&mut cache), vec![30, 20, 10]);
}

#[test]
fn full_cache_gives_the_slot_of_the_evicted_value_to_the_new_one() {
    let mut cache = LRUCache::<u32, 3>::new();
    cache.insert(1);
    cache.insert(2);
    cache.insert(3);
    assert_eq!(slots(&mut cache), vec![2, 1, 0]);
    cache.insert(4);
    assert_eq!(slots(&mut cache), vec![0, 2, 1]);
    cache.touch(|v| *v == 2);
    assert_eq!(slots(&mut cache), vec![1, 0, 2]);
    cache.insert(5);
    assert_eq!(slots(&mut cache), vec![2, 1, 0]);
    assert_eq!(listed(&mut cache), vec![5, 2, 4]);
}

#[test]
fn front_mut_gives_the_most_recent_value() {
    let mut cache = LRUCache::<u32, 3>::new();
    cache.insert(1);
    cache.insert(2);
    assert_eq!(cache.front_mut(), Some(&mut 2));
    if let Some(val) = cache.front_mut() {
        *val = 20;
    }
    assert_eq!(listed(&mut cache), vec![20, 1]);
    cache.touch(|v| *v == 1);
    assert_eq!(cache.front_mut(), Some(&mut 1));
}

#[test]
fn pop_back_and_push_front_turn_the_oldest_into_the_latest() {
    let mut cache = LRUCache::<u32, 3>::new();
    cache.insert(1);
    cache.insert(2);
    cache.insert(3);
    let slot = cache.pop_back();
    assert_eq!(slot, 0);
    cache.push_front(slot);
    assert_eq!(listed(&mut cache), vec![1, 3, 2]);
    assert_eq!(slots(&mut cache), vec![0, 2, 1]);
    assert_eq!(cache.len(), 3);
}

#[test]
fn pop_back_and_push_front_on_a_single_value() {
    let mut cache = LRUCache::<u32, 3>::new();
    cache.insert(1);
    let slot = cache.pop_back();
    assert_eq!(slot, 0);
    cache.push_front(slot);
    assert_eq!(listed(&mut cache), vec![1]);
    assert_eq!(cache.insert(2), None);
    assert_eq!(listed(&mut cache), vec![2, 1]);
}

#[test]
fn entry_gives_the_slot_by_its_index() {
    let mut cache = LRUCache::<u32, 3>::new();
    cache.insert(41);
    cache.insert(42);
    assert!(format!("{:?}", cache.entry(0)).contains("val: 41"));
    assert!(format!("{:?}", cache.entry(1)).contains("val: 42"));
}

#[test]
fn default_cache_is_empty() {
    let mut cache: LRUCache<u32, 2> = Default::default();
    assert!(cache.is_empty());
    assert_eq!(cache.insert(1), None);
    assert_eq!(cache.insert(2), None);
    assert_eq!(cache.insert(3), Some(1));
    assert_eq!(listed(&mut cache), vec![3, 2]);
}

#[test]
fn clone_is_independent() {
    let mut cache = LRUCache::<u32, 2>::new();
    cache.insert(1);
    cache.insert(2);
    let mut copy = cache.clone();
    copy.insert(3);
    assert_eq!(listed(&mut cache), vec![2, 1]);
    assert_eq!(listed(&mut copy), vec![3, 2]);
}

#[test]
fn largest_capacity_fills_and_evicts() {
    let mut cache = LRUCache::<u32, 65534>::new();
    for v in 0..65534u32 {
        assert_eq!(cache.insert(v), None);
    }
    assert_eq!(cache.len(), 65534);
    assert_eq!(cache.insert(65534), Some(0));
    assert_eq!(cache.insert(65535), Some(1));
    assert_eq!(cache.len(), 65534);
    let all = listed(&mut cache);
    assert_eq!(all.len(), 65534);
    assert_eq!(all[0], 65535);
    assert_eq!(all[65533], 2);
}

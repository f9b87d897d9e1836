use fixed_lru::LRUCache;

/// The values from the most to the least recently used.
fn values<const N: usize>(cache: &mut LRUCache<char, N>) -> Vec<char> {
    let mut seen = Vec::new();
    let mut iter = cache.iter_mut();
    while let Some((_, val)) = iter.next(cache) {
        seen.push(*val);
    }
    seen
}

fn filled() -> LRUCache<char, 3> {
    let mut cache = LRUCache::new();
    assert_eq!(cache.insert('A'), None);
    assert_eq!(cache.insert('B'), None);
    assert_eq!(cache.insert('C'), None);
    cache
}

#[test]
fn three_inserts_are_listed_latest_first() {
    let mut cache = filled();
    assert_eq!(values(&mut cache), vec!['C', 'B', 'A']);
    assert_eq!(cache.len(), 3);
}

#[test]
fn insert_into_full_cache_evicts_the_oldest() {
    let mut cache = filled();
    assert_eq!(cache.insert('D'), Some('A'));
    assert_eq!(values(&mut cache), vec!['D', 'C', 'B']);
    assert_eq!(cache.len(), 3);
}

#[test]
fn find_returns_the_match_and_moves_it_to_the_front() {
    let mut cache = filled();
    cache.insert('D');
    assert_eq!(cache.find(|v| *v == 'B'), Some(&mut 'B'));
    assert_eq!(values(&mut cache), vec!['B', 'D', 'C']);
}

#[test]
fn touch_without_a_match_changes_nothing() {
    let mut cache = filled();
    cache.insert('D');
    cache.find(|v| *v == 'B');
    assert!(!cache.touch(|v| *v == 'X'));
    assert_eq!(values(&mut cache), vec!['B', 'D', 'C']);
    assert_eq!(cache.len(), 3);
}

#[test]
fn clear_empties_and_the_next_insert_stands_alone() {
    let mut cache = filled();
    cache.insert('D');
    cache.find(|v| *v == 'B');
    cache.clear();
    assert_eq!(cache.len(), 0);
    assert!(cache.is_empty());
    assert_eq!(values(&mut cache), Vec::<char>::new());
    assert_eq!(cache.insert('E'), None);
    assert_eq!(values(&mut cache), vec!['E']);
    assert_eq!(cache.len(), 1);
}

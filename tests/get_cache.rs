use compressed_set::get_cache::GetCache;

#[test]
fn test_cache_insert() {
    let mut get_cache = GetCache::new();

    get_cache.insert(10, 12, 0);
    get_cache.insert(4, 6, 0);
    get_cache.insert(5, 7, 0);
    get_cache.insert(90, 8, 0);

    let items: Vec<u32> = get_cache.entries().iter().map(|i| i.0).collect();
    let mut exp_items = items.clone();
    exp_items.sort_unstable();
    assert_eq!(items, exp_items);
}

#[test]
fn test_cache_get() {
    let mut get_cache = GetCache::new();

    get_cache.insert(10, 7, 6);
    get_cache.insert(4, 2, 6);
    get_cache.insert(5, 4, 6);
    get_cache.insert(90, 30, 6);

    // The nearest entry at or below the key is returned as it was inserted.
    assert_eq!(get_cache.get(12), Some((10, 7, 6)));
    assert_eq!(get_cache.get(13), Some((10, 7, 6)));
    assert_eq!(get_cache.get(1239085), Some((90, 30, 6)));
}

#[test]
fn cache_get_exact_and_below_first() {
    let mut get_cache = GetCache::with_capacity(4);
    assert_eq!(get_cache.get(0), None);
    get_cache.insert(10, 1, 2);
    get_cache.insert(20, 3, 4);
    assert_eq!(get_cache.get(9), None);
    assert_eq!(get_cache.get(10), Some((10, 1, 2)));
    assert_eq!(get_cache.get(20), Some((20, 3, 4)));
    assert_eq!(get_cache.get(19), Some((10, 1, 2)));
}

#[test]
fn cache_first_writer_wins() {
    let mut get_cache = GetCache::new();
    get_cache.insert(5, 1, 1);
    get_cache.insert(5, 9, 9);
    assert_eq!(get_cache.entries(), &[(5, 1, 1)]);
    assert_eq!(get_cache.get(5), Some((5, 1, 1)));
}

use sim::cache::{Cache, CacheSet, Line, Outcome};

#[test]
fn test_cache_new_valid_parameters() {
    let s = 6;
    let e = 2;
    let b = 4;

    match Cache::new(s, e, b) {
        Ok(cache) => {
            assert_eq!(cache.sets.len(), 64);
            for set in &cache.sets {
                assert_eq!(set.lines.len(), e);

                for line in &set.lines {
                    assert!(!line.is_valid);
                    assert_eq!(line.tag, None);
                }

                assert_eq!(set.access_order.len(), 0);
            }
        }
        Err(err) => panic!("Error testing cache: {}", err),
    }
}

#[test]
fn test_cache_new_invalid_size() {
    let s = 1000;
    let e = 16;
    let b = 64;
    assert!(Cache::new(s, e, b).is_err());
}

#[test]
fn test_simulate_memory_access_cache_hits() {
    let mut cache = Cache::new(6, 2, 4).unwrap();

    cache.sets[0].lines[0].is_valid = true;
    cache.sets[0].lines[0].tag = Some(100);
    cache.sets[0].access_order.push_back(0);

    assert_eq!(cache.simulate_memory_access('L', 0, 100), Ok(()));
    assert_eq!(cache.hits, 1);
    assert_eq!(cache.misses, 0);
    assert_eq!(cache.evictions, 0);

    assert_eq!(cache.simulate_memory_access('S', 0, 100), Ok(()));
    assert_eq!(cache.hits, 2);
    assert_eq!(cache.misses, 0);
    assert_eq!(cache.evictions, 0);

    assert_eq!(cache.simulate_memory_access('M', 0, 100), Ok(()));
    assert_eq!(cache.hits, 4);
    assert_eq!(cache.misses, 0);
    assert_eq!(cache.evictions, 0);
}

#[test]
fn test_simulate_memory_access_cache_misses() {
    let mut cache = Cache::new(6, 4, 4).unwrap();

    assert_eq!(cache.simulate_memory_access('L', 0, 100), Ok(()));
    assert_eq!(cache.hits, 0);
    assert_eq!(cache.misses, 1);
    assert_eq!(cache.evictions, 0);

    assert_eq!(cache.simulate_memory_access('S', 0, 200), Ok(()));
    assert_eq!(cache.hits, 0);
    assert_eq!(cache.misses, 2);
    assert_eq!(cache.evictions, 0);

    assert_eq!(cache.simulate_memory_access('M', 0, 300), Ok(()));
    assert_eq!(cache.hits, 1);
    assert_eq!(cache.misses, 3);
    assert_eq!(cache.evictions, 0);
}

#[test]
fn test_simulate_memory_access_cache_evictions() {
    let mut cache = Cache::new(6, 1, 4).unwrap();

    cache.sets[0].lines[0].is_valid = true;
    cache.sets[0].lines[0].tag = Some(100);
    cache.sets[0].access_order.push_back(0);

    assert_eq!(cache.simulate_memory_access('L', 0, 200), Ok(()));
    assert_eq!(cache.hits, 0);
    assert_eq!(cache.misses, 1);
    assert_eq!(cache.evictions, 1);

    assert_eq!(cache.simulate_memory_access('S', 0, 300), Ok(()));
    assert_eq!(cache.hits, 0);
    assert_eq!(cache.misses, 2);
    assert_eq!(cache.evictions, 2);

    assert_eq!(cache.simulate_memory_access('M', 0, 400), Ok(()));
    assert_eq!(cache.hits, 1);
    assert_eq!(cache.misses, 3);
    assert_eq!(cache.evictions, 3);
}

#[test]
fn test_simulate_memory_access_unknown_operation() {
    let mut cache = Cache::new(6, 1, 4).unwrap();

    assert_eq!(cache.simulate_memory_access('X', 0, 100), Err("unknown operation: X".to_string()));
}

#[test]
fn test_update_access_order() {
    let mut cache = Cache::new(6, 2, 4).unwrap();

    cache.update_access_order(0, 1);
    assert_eq!(cache.sets[0].access_order, vec![1]);

    cache.update_access_order(0, 2);
    assert_eq!(cache.sets[0].access_order, vec![2, 1]);

    cache.update_access_order(0, 1);
    assert_eq!(cache.sets[0].access_order, vec![1, 2]);

    cache.update_access_order(0, 3);
    assert_eq!(cache.sets[0].access_order, vec![3, 1, 2]);
}

#[test]
fn new_geometry_errors() {
    assert_eq!(
        Cache::new(40, 1, 25).err(),
        Some("set index and block offset bits exceed the 64-bit address width".to_string())
    );
    assert_eq!(Cache::new(2, 0, 2).err(), Some("a set must hold at least one line".to_string()));
    assert_eq!(
        Cache::new(32, 2, 32).err(),
        Some("cache size exceeds available space (overflow)".to_string())
    );
    assert_eq!(
        Cache::new(0, usize::MAX, 1).err(),
        Some("cache size exceeds available space (overflow)".to_string())
    );
    let fresh = Cache::new(0, 3, 0).unwrap();
    assert_eq!(fresh.sets.len(), 1);
    assert_eq!(fresh.sets[0].lines.len(), 3);
    assert_eq!(fresh.snapshot(), (0, 0, 0));
}

#[test]
fn capacity_of_fresh_caches() {
    for &(s, e, b) in &[(0usize, 1usize, 0usize), (1, 1, 1), (3, 4, 5), (10, 2, 0)] {
        let cache = Cache::new(s, e, b).unwrap();
        assert_eq!(cache.sets.len(), 1 << s);
        for set in &cache.sets {
            assert_eq!(set.lines.len(), e);
            assert!(set.lines.iter().all(|l| *l == Line { tag: None, is_valid: false }));
            assert!(set.access_order.is_empty());
        }
    }
}

#[test]
fn second_access_hits() {
    let mut cache = Cache::new(2, 2, 2).unwrap();
    assert_eq!(cache.access(3, 77), Outcome::Miss);
    assert_eq!(cache.access(3, 77), Outcome::Hit);
    assert_eq!(cache.snapshot(), (0, 0, 0));
    cache.record(Outcome::Miss);
    cache.record(Outcome::Hit);
    cache.record(Outcome::MissWithEviction);
    assert_eq!(cache.snapshot(), (1, 2, 1));
}

#[test]
fn lru_evicts_least_recently_touched() {
    let mut set = CacheSet::new(3);
    assert_eq!(set.access(10), Outcome::Miss);
    assert_eq!(set.access(20), Outcome::Miss);
    assert_eq!(set.access(30), Outcome::Miss);
    assert_eq!(set.access_order, vec![2, 1, 0]);
    assert_eq!(set.access(40), Outcome::MissWithEviction);
    assert_eq!(set.lines[0].tag, Some(40));
    assert_eq!(set.access(20), Outcome::Hit);
    assert_eq!(set.access(30), Outcome::Hit);
    assert_eq!(set.access(10), Outcome::MissWithEviction);
    assert_eq!(set.lines[0].tag, Some(10));
    assert_eq!(set.access_order, vec![0, 2, 1]);
}

#[test]
fn recency_order_changes_the_victim() {
    let mut set = CacheSet::new(2);
    set.access(1);
    set.access(2);
    assert_eq!(set.access(1), Outcome::Hit);
    assert_eq!(set.access(3), Outcome::MissWithEviction);
    assert_eq!(set.lines[1].tag, Some(3));
    assert_eq!(set.access(1), Outcome::Hit);
    assert_eq!(set.access(2), Outcome::MissWithEviction);
}

#[test]
fn modify_never_misses_twice() {
    let mut cache = Cache::new(1, 1, 1).unwrap();
    for tag in [5u64, 6, 5, 5, 7] {
        let (h, m, ev) = cache.snapshot();
        assert_eq!(cache.simulate_memory_access('M', 1, tag), Ok(()));
        let (h2, m2, ev2) = cache.snapshot();
        assert!(h2 >= h + 1);
        assert!(m2 <= m + 1);
        assert_eq!(h2 + m2, h + m + 2);
        assert!(ev2 <= ev + 1);
    }
    assert_eq!(cache.snapshot(), (6, 4, 3));
}

#[test]
fn perform_reports_each_access() {
    let mut cache = Cache::new(0, 1, 0).unwrap();
    assert_eq!(cache.perform('S', 0, 8), Ok(vec![Outcome::Miss]));
    assert_eq!(cache.perform('M', 0, 9), Ok(vec![Outcome::MissWithEviction, Outcome::Hit]));
    assert_eq!(cache.perform('L', 0, 9), Ok(vec![Outcome::Hit]));
    assert_eq!(cache.perform('Q', 0, 9), Err("unknown operation: Q".to_string()));
    assert_eq!(cache.snapshot(), (2, 2, 1));
}

#[test]
fn out_of_range_set_index_is_an_error() {
    let mut cache = Cache::new(1, 1, 1).unwrap();
    assert_eq!(
        cache.simulate_memory_access('L', 2, 0),
        Err("failed to access cache set".to_string())
    );
    assert_eq!(
        cache.simulate_memory_access('M', 7, 0),
        Err("failed to access cache set".to_string())
    );
    assert_eq!(cache.snapshot(), (0, 0, 0));
}

#[test]
fn simulate_accesses_runs_in_order() {
    let mut cache = Cache::new(1, 2, 0).unwrap();
    let log =
        cache.simulate_accesses(&vec![('L', 0, 1), ('S', 0, 2), ('L', 0, 3), ('M', 0, 1), ('L', 1, 9)]);
    assert_eq!(cache.snapshot(), (1, 5, 2));
    let outcomes: Vec<Outcome> = log.iter().map(|r| r.outcome).collect();
    assert_eq!(
        outcomes,
        vec![
            Outcome::Miss,
            Outcome::Miss,
            Outcome::MissWithEviction,
            Outcome::MissWithEviction,
            Outcome::Hit,
            Outcome::Miss
        ]
    );
    assert_eq!(log[3].operation, 'M');
    assert_eq!(log[4].operation, 'M');
    assert_eq!(log[5].set_index, 1);
}

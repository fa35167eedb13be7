use fanout::store::FrameStore;

fn chain(frames: &[&str]) -> Vec<String> {
    frames.iter().map(|f| f.to_string()).collect()
}

fn timestamps(s: &FrameStore, i: usize) -> Vec<u64> {
    s.window(i).entries.iter().map(|e| e.timestamp).collect()
}

#[test]
fn insert_keeps_timestamp_order_and_overwrites() {
    let mut s = FrameStore::new();
    s.insert(1, 30, chain(&["a"]));
    s.insert(1, 10, chain(&["b"]));
    s.insert(1, 20, chain(&["c"]));
    s.insert(1, 20, chain(&["d"]));
    assert_eq!(s.thread_count(), 1);
    assert_eq!(timestamps(&s, 0), vec![10, 20, 30]);
    assert_eq!(s.window(0).entries[1].chain, chain(&["d"]));
}

#[test]
fn threads_get_their_own_windows() {
    let mut s = FrameStore::new();
    s.insert(5, 1, chain(&["a"]));
    s.insert(9, 2, chain(&["a"]));
    s.insert(5, 3, chain(&["a"]));
    assert_eq!(s.thread_count(), 2);
    assert_eq!(s.window(0).thread_id, 5);
    assert_eq!(s.window(0).len(), 2);
    assert_eq!(s.window(1).thread_id, 9);
    assert_eq!(s.latest(), 3);
}

#[test]
fn eviction_keeps_only_recent_samples() {
    let mut s = FrameStore::new();
    s.insert(1, 100, chain(&["a"]));
    s.insert(1, 150, chain(&["a"]));
    s.insert(2, 160, chain(&["a"]));
    s.insert(2, 400, chain(&["a"]));
    s.evict_stale(250);
    assert_eq!(timestamps(&s, 0), vec![150]);
    assert_eq!(timestamps(&s, 1), vec![160, 400]);
    s.evict_stale(100);
    assert_eq!(timestamps(&s, 0), Vec::<u64>::new());
    assert_eq!(timestamps(&s, 1), vec![400]);
    assert_eq!(s.thread_count(), 2);
}

#[test]
fn no_eviction_within_the_span() {
    let mut s = FrameStore::new();
    s.insert(1, 5, chain(&["a"]));
    s.insert(1, 10, chain(&["a"]));
    s.evict_stale(10);
    assert_eq!(timestamps(&s, 0), vec![5, 10]);
}

use fanout::aggregate::{dominant_suffix, fan_out_points, max_sample_count};
use fanout::scheduler::{Config, Session};
use fanout::store::{FrameStore, ThreadWindow};

fn chain(frames: &[&str]) -> Vec<String> {
    frames.iter().map(|f| f.to_string()).collect()
}

#[test]
fn two_threads_sharing_a_chain_then_diverging() {
    let mut s = Session::new(Config::for_mode(false));
    let input = "100 1\n a\n b\n\n200 2\n a\n b\n\n210 1\n a\n c\n";
    for line in input.lines() {
        s.on_line(line).unwrap();
    }
    s.finish();
    assert_eq!(s.store.thread_count(), 2);
    let w = s.store.window(0);
    assert_eq!(w.thread_id, 1);
    assert_eq!(w.entries[0].chain, chain(&["a", "b"]));
    assert_eq!(w.entries[1].chain, chain(&["a", "c"]));
    let points = s.refresh();
    assert!(points.is_empty());
}

#[test]
fn dominant_suffix_ties_go_to_the_latest() {
    let mut w = ThreadWindow::new(1);
    w.insert(100, chain(&["a", "b"]));
    w.insert(210, chain(&["a", "c"]));
    assert_eq!(dominant_suffix(&w), Some((chain(&["c"]), 1)));
    assert_eq!(dominant_suffix(&w), Some((chain(&["c"]), 1)));
}

#[test]
fn dominant_suffix_counts_across_the_window() {
    let mut w = ThreadWindow::new(1);
    w.insert(1, chain(&["main", "work", "lock"]));
    w.insert(2, chain(&["main", "work", "lock"]));
    w.insert(3, chain(&["main", "idle"]));
    assert_eq!(dominant_suffix(&w), Some((chain(&["work", "lock"]), 2)));
}

#[test]
fn single_frame_chains_attribute_nothing() {
    let mut w = ThreadWindow::new(1);
    w.insert(1, chain(&["main"]));
    assert_eq!(dominant_suffix(&w), None);
    assert_eq!(dominant_suffix(&ThreadWindow::new(2)), None);
}

#[test]
fn shared_suffix_becomes_a_point() {
    let mut s = FrameStore::new();
    for tid in 1..=2u64 {
        s.insert(tid, 1, chain(&["main", "work", "lock"]));
        s.insert(tid, 2, chain(&["main", "work", "lock"]));
    }
    let points = fan_out_points(&s);
    assert_eq!(points.len(), 1);
    assert_eq!(points[0].suffix, chain(&["work", "lock"]));
    assert_eq!(points[0].thread_count, 2);
    assert_eq!(points[0].sample_count, 4);
    assert_eq!(max_sample_count(&points), 4);
}

#[test]
fn noise_filters_drop_single_samples_and_single_frames() {
    let mut s = FrameStore::new();
    s.insert(1, 1, chain(&["main", "x", "y"]));
    s.insert(2, 1, chain(&["main", "z"]));
    s.insert(2, 2, chain(&["main", "z"]));
    let points = fan_out_points(&s);
    assert!(points.is_empty());
}

#[test]
fn points_rank_by_threads_then_samples() {
    let mut s = FrameStore::new();
    for tid in 1..=3u64 {
        s.insert(tid, 1, chain(&["r", "p", "q"]));
        s.insert(tid, 2, chain(&["r", "p", "q"]));
    }
    for ts in 1..=5u64 {
        s.insert(10, ts, chain(&["r", "m", "n"]));
    }
    for ts in 1..=3u64 {
        s.insert(11, ts, chain(&["r", "u", "v"]));
    }
    let points = fan_out_points(&s);
    assert_eq!(points.len(), 3);
    assert_eq!(points[0].suffix, chain(&["p", "q"]));
    assert_eq!(points[0].thread_count, 3);
    assert_eq!(points[0].sample_count, 6);
    assert_eq!(points[1].suffix, chain(&["m", "n"]));
    assert_eq!(points[1].sample_count, 5);
    assert_eq!(points[2].suffix, chain(&["u", "v"]));
    assert_eq!(points[2].sample_count, 3);
    assert_eq!(max_sample_count(&points), 6);
}

#[test]
fn max_sample_count_of_nothing_is_zero() {
    assert_eq!(max_sample_count(&Vec::new()), 0);
}

use fanout::aggregate::FanOutPoint;
use fanout::render::display_blocks;
use fanout::scheduler::{control_for_key, Config, Control, Session, Step};

#[test]
fn replay_pauses_for_long_gaps() {
    let mut s = Session::new(Config::for_mode(true));
    let none = Step { pause_ns: 0, redraw: false };
    assert_eq!(s.on_line("1000 1").unwrap(), none);
    assert_eq!(s.on_line(" a").unwrap(), none);
    assert_eq!(s.on_line("1500000 1").unwrap(), none);
    assert_eq!(s.on_line(" a").unwrap(), none);
    let st = s.on_line("5000000 2").unwrap();
    assert_eq!(st, Step { pause_ns: 1_499_000, redraw: false });
    assert_eq!(s.last_time, 1_500_000);
}

#[test]
fn live_mode_never_pauses_and_redraws_after_interval() {
    let mut s = Session::new(Config::for_mode(false));
    s.on_line("1 1").unwrap();
    s.on_line(" a").unwrap();
    s.on_line("2000000000 1").unwrap();
    s.on_line(" a").unwrap();
    let st = s.on_line("").unwrap();
    assert_eq!(st, Step { pause_ns: 0, redraw: true });
    assert_eq!(s.last_draw, 2_000_000_000);
}

#[test]
fn mode_settings() {
    let r = Config::for_mode(true);
    assert_eq!((r.draw_interval_ns, r.window_ns), (200_000_000, 10_000_000_000));
    let l = Config::for_mode(false);
    assert_eq!((l.draw_interval_ns, l.window_ns), (1_000_000_000, 5_000_000_000));
}

#[test]
fn only_q_quits() {
    assert_eq!(control_for_key(Some('q')), Control::Quit);
    assert_eq!(control_for_key(Some('x')), Control::Continue);
    assert_eq!(control_for_key(None), Control::Continue);
}

#[test]
fn blocks_demangle_frames_and_mark_the_first() {
    let p = FanOutPoint {
        suffix: vec!["_ZN3foo3barE".to_string(), "plain".to_string()],
        thread_count: 2,
        sample_count: 7,
    };
    let blocks = display_blocks(&vec![p]);
    assert_eq!(blocks.len(), 1);
    assert_eq!(blocks[0].thread_count, 2);
    assert_eq!(blocks[0].sample_count, 7);
    assert_eq!(blocks[0].lines[0].text, "foo::bar");
    assert!(blocks[0].lines[0].is_root);
    assert_eq!(blocks[0].lines[1].text, "plain");
    assert!(!blocks[0].lines[1].is_root);
}

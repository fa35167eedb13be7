//! The decisions of the input loop: what each trace line or key does to the
//! session, when to pause for replay pacing, and when to redraw.
use vstd::prelude::*;
use crate::aggregate::{fan_out_points, is_fan_out_of, points_view, FanOutPoint};
use crate::parser::{flushed, step, StackSample, TraceError, TraceParser};
use crate::store::{store_evict, store_insert, FrameStore};

verus! {

/// Redraw interval in replay mode, in trace nanoseconds.
pub const REPLAY_DRAW_INTERVAL_NS: u64 = 200_000_000;

/// Redraw interval in live mode, in trace nanoseconds.
pub const LIVE_DRAW_INTERVAL_NS: u64 = 1_000_000_000;

/// Retention span in replay mode, in trace nanoseconds.
pub const REPLAY_WINDOW_NS: u64 = 10_000_000_000;

/// Retention span in live mode, in trace nanoseconds.
pub const LIVE_WINDOW_NS: u64 = 5_000_000_000;

/// Gaps between records up to this many nanoseconds are not replayed.
pub const PACING_THRESHOLD_NS: u64 = 1_000_000;

/// How a session runs.
#[derive(PartialEq, Eq, Structural, Clone, Copy, Debug)]
pub struct Config {
    /// Reproduce the recorded spacing between records.
    pub replay: bool,
    pub draw_interval_ns: u64,
    pub window_ns: u64,
}

impl Config {
    /// The settings of replay or of live mode.
    pub fn for_mode(replay: bool) -> (r: Config)
        ensures
            r.replay == replay,
            r.draw_interval_ns == if replay {
                REPLAY_DRAW_INTERVAL_NS
            } else {
                LIVE_DRAW_INTERVAL_NS
            },
            r.window_ns == if replay {
                REPLAY_WINDOW_NS
            } else {
                LIVE_WINDOW_NS
            },
    {
        if replay {
            Config {
                replay,
                draw_interval_ns: REPLAY_DRAW_INTERVAL_NS,
                window_ns: REPLAY_WINDOW_NS,
            }
        } else {
            Config { replay, draw_interval_ns: LIVE_DRAW_INTERVAL_NS, window_ns: LIVE_WINDOW_NS }
        }
    }
}

/// What the loop does after a line: sleep for `pause_ns` nanoseconds (none when
/// 0), then redraw when `redraw` is set.
#[derive(PartialEq, Eq, Structural, Clone, Copy, Debug)]
pub struct Step {
    pub pause_ns: u64,
    pub redraw: bool,
}

/// What the loop does after a key.
#[derive(PartialEq, Eq, Structural, Clone, Copy, Debug)]
pub enum Control {
    Continue,
    Quit,
}

/// The key that ends a session.
pub const QUIT_KEY: char = 'q';

/// The quit key ends the session; every other key is ignored.
pub fn control_for_key(key: Option<char>) -> (r: Control)
    ensures
        r == if key == Some(QUIT_KEY) {
            Control::Quit
        } else {
            Control::Continue
        },
{
    match key {
        Some(c) => if c == QUIT_KEY {
            Control::Quit
        } else {
            Control::Continue
        },
        None => Control::Continue,
    }
}

/// The replay pause before going on after a record at `time`, when the previous
/// record was at `last_time` (0 before the first record): the gap itself when
/// replaying and it is over the threshold, else none.
pub open spec fn pause_for(replay: bool, last_time: u64, time: u64) -> u64 {
    if replay && last_time != 0 && time > last_time && time - last_time > PACING_THRESHOLD_NS {
        (time - last_time) as u64
    } else {
        0
    }
}

/// A redraw is due once a record lies more than the draw interval after the last
/// redraw.
pub open spec fn redraw_due(last_draw: u64, time: u64, interval: u64) -> bool {
    time > last_draw && time - last_draw > interval
}

/// A session: the parser, the frame store, and the pacing and redraw clocks, all
/// in trace time.
pub struct Session {
    pub config: Config,
    pub parser: TraceParser,
    pub store: FrameStore,
    /// Timestamp of the last record that yielded a sample, 0 before the first.
    pub last_time: u64,
    /// Timestamp of the record after which the last redraw came, 0 before it.
    pub last_draw: u64,
}

impl Session {
    pub open spec fn wf(&self) -> bool {
        self.store.wf()
    }

    /// A session with an empty store and no open record.
    pub fn new(config: Config) -> (r: Session)
        ensures
            r.wf(),
            r.config == config,
            r.parser@ == (None::<(u64, u64)>, Seq::<Seq<char>>::empty()),
            r.store@ == Seq::<(u64, Seq<(u64, Seq<Seq<char>>)>)>::empty(),
            r.last_time == 0,
            r.last_draw == 0,
    {
        Session {
            config,
            parser: TraceParser::new(),
            store: FrameStore::new(),
            last_time: 0,
            last_draw: 0,
        }
    }

    /// Stores a sample, and decides the pause and the redraw that follow it.
    fn record(&mut self, s: StackSample) -> (r: Step)
        requires
            old(self).wf(),
        ensures
            final(self).wf(),
            final(self).config == old(self).config,
            final(self).parser@ == old(self).parser@,
            final(self).store@ == store_insert(old(self).store@, s.thread_id, s.timestamp, s.chain.deep_view()),
            r.pause_ns == pause_for(old(self).config.replay, old(self).last_time, s.timestamp),
            r.redraw == redraw_due(old(self).last_draw, s.timestamp, old(self).config.draw_interval_ns),
            final(self).last_time == s.timestamp,
            final(self).last_draw == if r.redraw {
                s.timestamp
            } else {
                old(self).last_draw
            },
    {
        let time = s.timestamp;
        self.store.insert(s.thread_id, time, s.chain);
        let pause_ns = if self.config.replay && self.last_time != 0 && time > self.last_time && time
            - self.last_time > PACING_THRESHOLD_NS {
            time - self.last_time
        } else {
            0
        };
        self.last_time = time;
        let redraw = time > self.last_draw && time - self.last_draw > self.config.draw_interval_ns;
        if redraw {
            self.last_draw = time;
        }
        Step { pause_ns, redraw }
    }

    /// Feeds one trace line. A line that closes a record with frames stores its
    /// sample and may ask for a pause and a redraw; any other line asks for
    /// neither.
    pub fn on_line(&mut self, line: &str) -> (r: Result<Step, TraceError>)
        requires
            old(self).wf(),
        ensures
            final(self).wf(),
            final(self).config == old(self).config,
            match step(old(self).parser@, line@) {
                Err(e) => r == Err::<Step, TraceError>(e),
                Ok(n) => final(self).parser@ == n.0 && match n.1 {
                    None => r == Ok::<Step, TraceError>(Step { pause_ns: 0, redraw: false })
                        && final(self).store@ == old(self).store@ && final(self).last_time == old(
                        self,
                    ).last_time && final(self).last_draw == old(self).last_draw,
                    Some(smp) => r matches Ok(st) && final(self).store@ == store_insert(
                        old(self).store@,
                        smp.1,
                        smp.0,
                        smp.2,
                    ) && st.pause_ns == pause_for(old(self).config.replay, old(self).last_time, smp.0)
                        && st.redraw == redraw_due(
                        old(self).last_draw,
                        smp.0,
                        old(self).config.draw_interval_ns,
                    ) && final(self).last_time == smp.0 && final(self).last_draw == if st.redraw {
                        smp.0
                    } else {
                        old(self).last_draw
                    },
                },
            },
    {
        match self.parser.feed_line(line) {
            Err(e) => Err(e),
            Ok(None) => Ok(Step { pause_ns: 0, redraw: false }),
            Ok(Some(s)) => Ok(self.record(s)),
        }
    }

    /// Ends the trace stream: the open record, if it has frames, is stored.
    pub fn finish(&mut self)
        requires
            old(self).wf(),
        ensures
            final(self).wf(),
            final(self).config == old(self).config,
            final(self).parser@ == (None::<(u64, u64)>, Seq::<Seq<char>>::empty()),
            final(self).store@ == match flushed(old(self).parser@) {
                Some(smp) => store_insert(old(self).store@, smp.1, smp.0, smp.2),
                None => old(self).store@,
            },
    {
        match self.parser.finish() {
            Some(s) => {
                self.record(s);
            },
            None => {},
        }
    }

    /// A redraw: evicts the stale samples, then ranks the fan-out points of what
    /// is left.
    pub fn refresh(&mut self) -> (r: Vec<FanOutPoint>)
        requires
            old(self).wf(),
        ensures
            final(self).wf(),
            final(self).config == old(self).config,
            final(self).parser@ == old(self).parser@,
            final(self).last_time == old(self).last_time,
            final(self).last_draw == old(self).last_draw,
            final(self).store@ == store_evict(old(self).store@, old(self).config.window_ns),
            is_fan_out_of(final(self).store@, points_view(r@)),
    {
        self.store.evict_stale(self.config.window_ns);
        fan_out_points(&self.store)
    }
}

} // verus!

//! Per-thread sliding windows of recorded call chains.
use vstd::prelude::*;

verus! {

/// One recorded sample of a thread: when it was taken and its call chain, root first.
pub struct Entry {
    pub timestamp: u64,
    pub chain: Vec<String>,
}

impl View for Entry {
    type V = (u64, Seq<Seq<char>>);

    open spec fn view(&self) -> (u64, Seq<Seq<char>>) {
        (self.timestamp, self.chain.deep_view())
    }
}

/// The samples of one thread, in ascending timestamp order, one per timestamp.
pub struct ThreadWindow {
    pub thread_id: u64,
    pub entries: Vec<Entry>,
}

/// A window as a sequence of (timestamp, chain) pairs.
pub open spec fn window_view(entries: Seq<Entry>) -> Seq<(u64, Seq<Seq<char>>)> {
    entries.map_values(|e: Entry| e@)
}

impl View for ThreadWindow {
    type V = (u64, Seq<(u64, Seq<Seq<char>>)>);

    open spec fn view(&self) -> (u64, Seq<(u64, Seq<Seq<char>>)>) {
        (self.thread_id, window_view(self.entries@))
    }
}

/// Timestamps strictly increase along the window.
pub open spec fn sorted_window(w: Seq<(u64, Seq<Seq<char>>)>) -> bool {
    forall|i: int, j: int| 0 <= i < j < w.len() ==> w[i].0 < w[j].0
}

/// `k` splits the window into the entries before `ts` and those at or after it.
pub open spec fn splits_at(w: Seq<(u64, Seq<Seq<char>>)>, ts: u64, k: int) -> bool {
    &&& 0 <= k <= w.len()
    &&& forall|i: int| 0 <= i < k ==> w[i].0 < ts
    &&& forall|i: int| k <= i < w.len() ==> w[i].0 >= ts
}

/// The position of the first entry whose timestamp is at least `ts`.
pub open spec fn lower_bound(w: Seq<(u64, Seq<Seq<char>>)>, ts: u64) -> int {
    choose|k: int| splits_at(w, ts, k)
}

/// The window after recording `chain` at `ts`: a sample at an existing timestamp is
/// replaced, otherwise the new one goes to its place in timestamp order.
pub open spec fn window_insert(
    w: Seq<(u64, Seq<Seq<char>>)>,
    ts: u64,
    chain: Seq<Seq<char>>,
) -> Seq<(u64, Seq<Seq<char>>)> {
    let k = lower_bound(w, ts);
    if k < w.len() && w[k].0 == ts {
        w.update(k, (ts, chain))
    } else {
        w.insert(k, (ts, chain))
    }
}

/// The entries of a window whose timestamp is at least `bound`.
pub open spec fn window_recent(w: Seq<(u64, Seq<Seq<char>>)>, bound: u64) -> Seq<
    (u64, Seq<Seq<char>>),
> {
    w.skip(lower_bound(w, bound))
}

/// The latest timestamp of a window, 0 when it is empty.
pub open spec fn window_latest(w: Seq<(u64, Seq<Seq<char>>)>) -> u64 {
    if w.len() == 0 {
        0
    } else {
        w.last().0
    }
}

pub proof fn lemma_lower_bound_unique(w: Seq<(u64, Seq<Seq<char>>)>, ts: u64, k: int)
    requires
        splits_at(w, ts, k),
    ensures
        lower_bound(w, ts) == k,
{
    let j = lower_bound(w, ts);
    assert(splits_at(w, ts, j));
    if j < k {
        assert(w[j].0 < ts);
    } else if k < j {
        assert(w[k].0 < ts);
    }
}

/// Eviction keeps exactly the recent samples: every entry that stays is at or
/// after the bound, and no entry at or after the bound is dropped.
pub proof fn lemma_eviction_keeps_recent(w: Seq<(u64, Seq<Seq<char>>)>, bound: u64)
    requires
        sorted_window(w),
    ensures
        forall|i: int|
            0 <= i < window_recent(w, bound).len() ==> #[trigger] window_recent(w, bound)[i].0
                >= bound,
        forall|i: int|
            0 <= i < w.len() && #[trigger] w[i].0 >= bound ==> window_recent(w, bound).contains(
                w[i],
            ),
        sorted_window(window_recent(w, bound)),
{
    let k = lemma_split_exists(w, bound);
    lemma_lower_bound_unique(w, bound, k);
    let r = window_recent(w, bound);
    assert forall|i: int| 0 <= i < w.len() && #[trigger] w[i].0 >= bound implies r.contains(
        w[i],
    ) by {
        assert(i >= k);
        assert(r[i - k] == w[i]);
    }
}

/// A sorted window always splits somewhere.
pub proof fn lemma_split_exists(w: Seq<(u64, Seq<Seq<char>>)>, ts: u64) -> (k: int)
    requires
        sorted_window(w),
    ensures
        splits_at(w, ts, k),
    decreases w.len(),
{
    if w.len() == 0 {
        0
    } else if w.last().0 < ts {
        w.len() as int
    } else {
        let p = w.drop_last();
        let k = lemma_split_exists(p, ts);
        assert forall|i: int| 0 <= i < k implies w[i].0 < ts by {
            assert(p[i] == w[i]);
        }
        assert forall|i: int| k <= i < w.len() implies w[i].0 >= ts by {
            if i < w.len() - 1 {
                assert(p[i] == w[i]);
            }
        }
        k
    }
}

impl ThreadWindow {
    pub open spec fn wf(&self) -> bool {
        sorted_window(self@.1)
    }

    /// An empty window for a thread.
    pub fn new(thread_id: u64) -> (r: ThreadWindow)
        ensures
            r@ == (thread_id, Seq::<(u64, Seq<Seq<char>>)>::empty()),
            r.wf(),
    {
        let r = ThreadWindow { thread_id, entries: Vec::new() };
        assert(window_view(r.entries@) =~= Seq::<(u64, Seq<Seq<char>>)>::empty());
        r
    }

    /// The position of the first entry at or after `ts`.
    fn find_position(&self, ts: u64) -> (k: usize)
        requires
            self.wf(),
        ensures
            splits_at(self@.1, ts, k as int),
            k as int == lower_bound(self@.1, ts),
    {
        let mut k: usize = 0;
        while k < self.entries.len() && self.entries[k].timestamp < ts
            invariant
                k <= self.entries@.len(),
                forall|i: int| 0 <= i < k ==> self@.1[i].0 < ts,
            decreases self.entries@.len() - k,
        {
            k = k + 1;
        }
        assert forall|i: int| k <= i < self@.1.len() implies self@.1[i].0 >= ts by {
            if k < i {
                assert(self@.1[k as int].0 < self@.1[i].0);
            }
        }
        proof {
            lemma_lower_bound_unique(self@.1, ts, k as int);
        }
        k
    }

    /// Records `chain` at `ts`, replacing a sample already held at that timestamp.
    pub fn insert(&mut self, ts: u64, chain: Vec<String>)
        requires
            old(self).wf(),
        ensures
            final(self).wf(),
            final(self)@ == (old(self)@.0, window_insert(old(self)@.1, ts, chain.deep_view())),
    {
        let k = self.find_position(ts);
        let ghost w = self@.1;
        let ghost c = chain.deep_view();
        let e = Entry { timestamp: ts, chain };
        if k < self.entries.len() && self.entries[k].timestamp == ts {
            self.entries.set(k, e);
            assert(window_view(self.entries@) =~= w.update(k as int, (ts, c)));
            let ghost n = self@.1;
            assert forall|i: int, j: int| 0 <= i < j < n.len() implies n[i].0 < n[j].0 by {
                assert(n[i].0 == w[i].0 && n[j].0 == w[j].0);
            }
        } else {
            self.entries.insert(k, e);
            assert(window_view(self.entries@) =~= w.insert(k as int, (ts, c)));
            let ghost n = self@.1;
            assert forall|i: int, j: int| 0 <= i < j < n.len() implies n[i].0 < n[j].0 by {
                if j < k {
                    assert(n[i] == w[i] && n[j] == w[j]);
                } else if j == k {
                    assert(n[i] == w[i]);
                } else if i < k {
                    assert(n[i] == w[i] && n[j] == w[j - 1]);
                } else if i == k {
                    assert(n[j] == w[j - 1]);
                } else {
                    assert(n[i] == w[i - 1] && n[j] == w[j - 1]);
                }
            }
        }
    }

    /// The latest timestamp held, 0 when the window is empty.
    pub fn latest(&self) -> (r: u64)
        ensures
            r == window_latest(self@.1),
    {
        if self.entries.len() == 0 {
            0
        } else {
            self.entries[self.entries.len() - 1].timestamp
        }
    }

    /// Drops every entry older than `bound`.
    pub fn retain_recent(&mut self, bound: u64)
        requires
            old(self).wf(),
        ensures
            final(self).wf(),
            final(self)@ == (old(self)@.0, window_recent(old(self)@.1, bound)),
    {
        let k = self.find_position(bound);
        let ghost w = self@.1;
        let kept = self.entries.split_off(k);
        self.entries = kept;
        assert(window_view(self.entries@) =~= w.skip(k as int));
        proof {
            lemma_eviction_keeps_recent(w, bound);
        }
    }

    /// The number of samples held.
    pub fn len(&self) -> (r: usize)
        ensures
            r == self@.1.len(),
    {
        self.entries.len()
    }
}

/// The thread windows in the order their threads were first seen.
pub struct FrameStore {
    pub threads: Vec<ThreadWindow>,
}

/// The store as (thread id, window) pairs.
pub open spec fn store_view(threads: Seq<ThreadWindow>) -> Seq<(u64, Seq<(u64, Seq<Seq<char>>)>)> {
    threads.map_values(|t: ThreadWindow| t@)
}

pub open spec fn has_thread(s: Seq<(u64, Seq<(u64, Seq<Seq<char>>)>)>, tid: u64) -> bool {
    exists|i: int| 0 <= i < s.len() && s[i].0 == tid
}

/// The position of a thread's window.
pub open spec fn thread_index(s: Seq<(u64, Seq<(u64, Seq<Seq<char>>)>)>, tid: u64) -> int {
    choose|i: int| 0 <= i < s.len() && s[i].0 == tid
}

/// The store after recording a sample: into the thread's window, which is created
/// on the thread's first sample.
pub open spec fn store_insert(
    s: Seq<(u64, Seq<(u64, Seq<Seq<char>>)>)>,
    tid: u64,
    ts: u64,
    chain: Seq<Seq<char>>,
) -> Seq<(u64, Seq<(u64, Seq<Seq<char>>)>)> {
    if has_thread(s, tid) {
        let i = thread_index(s, tid);
        s.update(i, (tid, window_insert(s[i].1, ts, chain)))
    } else {
        s.push((tid, window_insert(Seq::empty(), ts, chain)))
    }
}

/// The latest timestamp held anywhere in the store, 0 when it holds none.
pub open spec fn store_latest(s: Seq<(u64, Seq<(u64, Seq<Seq<char>>)>)>) -> u64
    decreases s.len(),
{
    if s.len() == 0 {
        0
    } else {
        let a = store_latest(s.drop_last());
        let b = window_latest(s.last().1);
        if a >= b {
            a
        } else {
            b
        }
    }
}

/// The store after eviction against a retention span of `span` nanoseconds:
/// once the latest timestamp exceeds the span, every window keeps only the entries
/// no older than the latest timestamp minus the span.
pub open spec fn store_evict(s: Seq<(u64, Seq<(u64, Seq<Seq<char>>)>)>, span: u64) -> Seq<
    (u64, Seq<(u64, Seq<Seq<char>>)>),
> {
    let latest = store_latest(s);
    if latest > span {
        s.map_values(
            |t: (u64, Seq<(u64, Seq<Seq<char>>)>)|
                (t.0, window_recent(t.1, (latest - span) as u64)),
        )
    } else {
        s
    }
}

impl View for FrameStore {
    type V = Seq<(u64, Seq<(u64, Seq<Seq<char>>)>)>;

    open spec fn view(&self) -> Seq<(u64, Seq<(u64, Seq<Seq<char>>)>)> {
        store_view(self.threads@)
    }
}

impl FrameStore {
    /// Every window is sorted and no thread has two windows.
    pub open spec fn wf(&self) -> bool {
        &&& forall|i: int| 0 <= i < self.threads@.len() ==> (#[trigger] self.threads@[i]).wf()
        &&& forall|i: int, j: int|
            0 <= i < j < self@.len() ==> (#[trigger] self@[i]).0 != (#[trigger] self@[j]).0
    }

    /// A store with no threads.
    pub fn new() -> (r: FrameStore)
        ensures
            r.wf(),
            r@ == Seq::<(u64, Seq<(u64, Seq<Seq<char>>)>)>::empty(),
    {
        let r = FrameStore { threads: Vec::new() };
        assert(r@ =~= Seq::<(u64, Seq<(u64, Seq<Seq<char>>)>)>::empty());
        r
    }

    /// Records a sample of thread `tid` taken at `ts`.
    pub fn insert(&mut self, tid: u64, ts: u64, chain: Vec<String>)
        requires
            old(self).wf(),
        ensures
            final(self).wf(),
            final(self)@ == store_insert(old(self)@, tid, ts, chain.deep_view()),
    {
        let ghost s = self@;
        let mut i: usize = 0;
        while i < self.threads.len() && self.threads[i].thread_id != tid
            invariant
                i <= self.threads@.len(),
                self@ == s,
                forall|j: int| 0 <= j < i ==> s[j].0 != tid,
            decreases self.threads@.len() - i,
        {
            i = i + 1;
        }
        if i < self.threads.len() {
            assert(s[i as int].0 == tid);
            let ghost k = thread_index(s, tid);
            assert(k == i);
            let mut t = self.threads.remove(i);
            t.insert(ts, chain);
            self.threads.insert(i, t);
            assert(self@ =~= s.update(i as int, (tid, window_insert(s[i as int].1, ts, chain.deep_view()))));
        } else {
            let mut t = ThreadWindow::new(tid);
            t.insert(ts, chain);
            self.threads.push(t);
            assert(self@ =~= s.push((tid, window_insert(Seq::empty(), ts, chain.deep_view()))));
        }
    }

    /// The latest timestamp held in any window.
    pub fn latest(&self) -> (r: u64)
        ensures
            r == store_latest(self@),
    {
        let mut latest: u64 = 0;
        let mut i: usize = 0;
        while i < self.threads.len()
            invariant
                i <= self.threads@.len(),
                latest == store_latest(self@.take(i as int)),
            decreases self.threads@.len() - i,
        {
            assert(self@.take(i + 1).drop_last() =~= self@.take(i as int));
            let l = self.threads[i].latest();
            if l > latest {
                latest = l;
            }
            i = i + 1;
        }
        assert(self@.take(i as int) =~= self@);
        latest
    }

    /// Evicts, from every window, the entries older than the latest timestamp
    /// minus `span`; nothing is evicted while the latest timestamp is within `span`.
    pub fn evict_stale(&mut self, span: u64)
        requires
            old(self).wf(),
        ensures
            final(self).wf(),
            final(self)@ == store_evict(old(self)@, span),
    {
        let ghost s = self@;
        let latest = self.latest();
        if latest > span {
            let bound = latest - span;
            let mut i: usize = 0;
            while i < self.threads.len()
                invariant
                    i <= self.threads@.len(),
                    self.threads@.len() == s.len(),
                    self.wf(),
                    forall|j: int| 0 <= j < i ==> self@[j] == (s[j].0, window_recent(s[j].1, bound)),
                    forall|j: int| i <= j < s.len() ==> self@[j] == s[j],
                decreases self.threads@.len() - i,
            {
                let ghost pre = self.threads@;
                let mut t = self.threads.remove(i);
                t.retain_recent(bound);
                self.threads.insert(i, t);
                assert(self.threads@ =~= pre.update(i as int, t));
                assert(self@ =~= store_view(pre).update(i as int, t@));
                assert(store_view(pre)[i as int] == s[i as int]);
                assert(t@ == (s[i as int].0, window_recent(s[i as int].1, bound)));
                assert forall|j: int| 0 <= j < self.threads@.len() implies (
                #[trigger] self.threads@[j]).wf() by {
                    if j != i {
                        assert(self.threads@[j] == pre[j]);
                    }
                }
                assert forall|j: int, k: int| 0 <= j < k < self@.len() implies (
                #[trigger] self@[j]).0 != (#[trigger] self@[k]).0 by {
                    assert(self@[j].0 == store_view(pre)[j].0);
                    assert(self@[k].0 == store_view(pre)[k].0);
                }
                i = i + 1;
            }
            assert(self@ =~= store_evict(s, span));
        }
    }

    /// The number of threads seen.
    pub fn thread_count(&self) -> (r: usize)
        ensures
            r == self@.len(),
    {
        self.threads.len()
    }

    /// The window of the `i`-th thread seen.
    pub fn window(&self, i: usize) -> (r: &ThreadWindow)
        requires
            i < self@.len(),
        ensures
            r@ == self@[i as int],
            self.wf() ==> r.wf(),
    {
        &self.threads[i]
    }
}

/// After an eviction pass every sample left is no older than the latest
/// timestamp minus the span, and no sample at or after that bound was evicted.
pub proof fn lemma_store_eviction_window(s: Seq<(u64, Seq<(u64, Seq<Seq<char>>)>)>, span: u64)
    requires
        forall|i: int| 0 <= i < s.len() ==> sorted_window(#[trigger] s[i].1),
        store_latest(s) > span,
    ensures
        store_evict(s, span).len() == s.len(),
        forall|i: int, j: int|
            0 <= i < s.len() && 0 <= j < store_evict(s, span)[i].1.len() ==> (#[trigger] store_evict(
                s,
                span,
            )[i].1[j]).0 >= store_latest(s) - span,
        forall|i: int, j: int|
            0 <= i < s.len() && 0 <= j < s[i].1.len() && (#[trigger] s[i].1[j]).0 >= store_latest(s)
                - span ==> store_evict(s, span)[i].1.contains(s[i].1[j]),
{
    let bound = (store_latest(s) - span) as u64;
    assert forall|i: int, j: int|
        0 <= i < s.len() && 0 <= j < store_evict(s, span)[i].1.len() implies (
        #[trigger] store_evict(s, span)[i].1[j]).0 >= store_latest(s) - span by {
        lemma_eviction_keeps_recent(s[i].1, bound);
        assert(store_evict(s, span)[i].1 == window_recent(s[i].1, bound));
    }
    assert forall|i: int, j: int|
        0 <= i < s.len() && 0 <= j < s[i].1.len() && (#[trigger] s[i].1[j]).0 >= store_latest(s)
            - span implies store_evict(s, span)[i].1.contains(s[i].1[j]) by {
        lemma_eviction_keeps_recent(s[i].1, bound);
        assert(store_evict(s, span)[i].1 == window_recent(s[i].1, bound));
    }
}

} // verus!

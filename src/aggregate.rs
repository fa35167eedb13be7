//! Attribution of each thread to its most recurrent stack suffix, and the ranking
//! of the suffixes that several attributions share.
use vstd::prelude::*;
use crate::store::{FrameStore, ThreadWindow};

verus! {

/// The suffixes of a chain that a sample contributes, leaf first: the leaf alone,
/// the last two frames, and so on up to every frame but the root.
pub open spec fn chain_suffixes(c: Seq<Seq<char>>) -> Seq<Seq<Seq<char>>> {
    Seq::new(
        if c.len() > 0 {
            (c.len() - 1) as nat
        } else {
            0
        },
        |k: int| c.skip(c.len() - 1 - k),
    )
}

/// Every suffix occurrence of a window, sample after sample in timestamp order.
pub open spec fn window_events(w: Seq<(u64, Seq<Seq<char>>)>) -> Seq<Seq<Seq<char>>>
    decreases w.len(),
{
    if w.len() == 0 {
        Seq::empty()
    } else {
        window_events(w.drop_last()) + chain_suffixes(w.last().1)
    }
}

/// How often `x` occurs in `ev`.
pub open spec fn occurrences(ev: Seq<Seq<Seq<char>>>, x: Seq<Seq<char>>) -> nat
    decreases ev.len(),
{
    if ev.len() == 0 {
        0
    } else {
        occurrences(ev.drop_last(), x) + if ev.last() == x {
            1nat
        } else {
            0nat
        }
    }
}

/// The running maximum over the occurrences: after each occurrence is counted,
/// its suffix takes the lead when its count is at least the leading count, so
/// that among equal counts the one counted last wins.
pub open spec fn dominant(ev: Seq<Seq<Seq<char>>>) -> Option<(Seq<Seq<char>>, nat)>
    decreases ev.len(),
{
    if ev.len() == 0 {
        None
    } else {
        let x = ev.last();
        let c = occurrences(ev, x);
        match dominant(ev.drop_last()) {
            None => Some((x, c)),
            Some(p) => if c >= p.1 {
                Some((x, c))
            } else {
                Some(p)
            },
        }
    }
}

/// The dominant attribution of a window.
pub open spec fn window_dominant(w: Seq<(u64, Seq<Seq<char>>)>) -> Option<(Seq<Seq<char>>, nat)> {
    dominant(window_events(w))
}

/// The dominant suffix is a most frequent one: it holds its count, and no suffix
/// occurs more often. The choice depends on the occurrence sequence alone, so
/// the same samples in the same order always give the same attribution.
pub proof fn lemma_dominant_is_most_frequent(ev: Seq<Seq<Seq<char>>>)
    ensures
        ev.len() == 0 <==> dominant(ev) is None,
        dominant(ev) matches Some(p) ==> p.1 == occurrences(ev, p.0) && forall|x: Seq<Seq<char>>|
            #[trigger] occurrences(ev, x) <= p.1,
    decreases ev.len(),
{
    if ev.len() > 0 {
        let pre = ev.drop_last();
        let y = ev.last();
        lemma_dominant_is_most_frequent(pre);
        match dominant(pre) {
            None => {
                assert(pre.len() == 0);
                assert forall|x: Seq<Seq<char>>| #[trigger] occurrences(ev, x) <= occurrences(ev, y) by {
                    assert(occurrences(pre, x) == 0);
                }
            },
            Some(p) => {
                assert forall|x: Seq<Seq<char>>| #[trigger] occurrences(ev, x) <= dominant(ev).unwrap().1 by {
                    assert(occurrences(pre, x) <= p.1);
                }
            },
        }
    }
}

/// Whether `v` holds the frames of `chain` from `start` on.
fn same_tail(v: &Vec<String>, chain: &Vec<String>, start: usize) -> (r: bool)
    requires
        start <= chain@.len(),
    ensures
        r == (v.deep_view() == chain.deep_view().skip(start as int)),
{
    let n = chain.len() - start;
    if v.len() != n {
        proof {
            if v.deep_view() == chain.deep_view().skip(start as int) {
                assert(v.deep_view().len() == v@.len());
            }
        }
        return false;
    }
    let mut i: usize = 0;
    while i < n
        invariant
            n == v@.len(),
            start + n == chain@.len(),
            start + n <= usize::MAX,
            i <= n,
            forall|j: int| 0 <= j < i ==> v@[j]@ == chain@[start + j]@,
        decreases n - i,
    {
        if v[i] != chain[start + i] {
            proof {
                if v.deep_view() == chain.deep_view().skip(start as int) {
                    assert(v.deep_view()[i as int] == chain.deep_view()[start + i]);
                }
            }
            return false;
        }
        i = i + 1;
    }
    assert(v.deep_view() =~= chain.deep_view().skip(start as int));
    true
}

/// A copy of the frames of `chain` from `start` on.
fn copy_tail(chain: &Vec<String>, start: usize) -> (r: Vec<String>)
    requires
        start <= chain@.len(),
    ensures
        r.deep_view() == chain.deep_view().skip(start as int),
{
    let mut r: Vec<String> = Vec::new();
    let mut i: usize = start;
    while i < chain.len()
        invariant
            start <= i <= chain@.len(),
            r@.len() == i - start,
            forall|j: int| 0 <= j < r@.len() ==> r@[j]@ == chain@[start + j]@,
        decreases chain@.len() - i,
    {
        r.push(chain[i].clone());
        i = i + 1;
    }
    assert(r.deep_view() =~= chain.deep_view().skip(start as int));
    r
}

/// A copy of a sequence of frames.
pub fn copy_frames(v: &Vec<String>) -> (r: Vec<String>)
    ensures
        r.deep_view() == v.deep_view(),
{
    let r = copy_tail(v, 0);
    assert(v.deep_view().skip(0) =~= v.deep_view());
    r
}

/// Finds `chain`'s tail from `start` among `keys`; `keys.len()` when absent.
fn find_tail(keys: &Vec<Vec<String>>, chain: &Vec<String>, start: usize) -> (j: usize)
    requires
        start <= chain@.len(),
    ensures
        j <= keys@.len(),
        j < keys@.len() ==> keys@[j as int].deep_view() == chain.deep_view().skip(start as int),
        j == keys@.len() ==> forall|i: int|
            0 <= i < keys@.len() ==> keys@[i].deep_view() != chain.deep_view().skip(start as int),
{
    let mut j: usize = 0;
    while j < keys.len()
        invariant
            j <= keys@.len(),
            start <= chain@.len(),
            forall|i: int|
                0 <= i < j ==> keys@[i].deep_view() != chain.deep_view().skip(start as int),
        decreases keys@.len() - j,
    {
        if same_tail(&keys[j], chain, start) {
            return j;
        }
        j = j + 1;
    }
    j
}

pub proof fn lemma_occurrences_push(ev: Seq<Seq<Seq<char>>>, y: Seq<Seq<char>>, x: Seq<Seq<char>>)
    ensures
        occurrences(ev.push(y), x) == occurrences(ev, x) + if y == x {
            1nat
        } else {
            0nat
        },
{
    assert(ev.push(y).drop_last() =~= ev);
}

/// The frequency table of one thread: distinct keys, each with its count so far,
/// and every suffix seen so far among the keys.
spec fn table_ok(keys: Seq<Vec<String>>, counts: Seq<usize>, ev: Seq<Seq<Seq<char>>>) -> bool {
    &&& keys.len() == counts.len()
    &&& forall|i: int, j: int|
        0 <= i < j < keys.len() ==> (#[trigger] keys[i]).deep_view() != (#[trigger] keys[j]).deep_view()
    &&& forall|i: int| 0 <= i < keys.len() ==> #[trigger] counts[i] == occurrences(ev, keys[i].deep_view())
    &&& forall|x: Seq<Seq<char>>|
        #[trigger] occurrences(ev, x) > 0 ==> exists|i: int| 0 <= i < keys.len() && keys[i].deep_view() == x
}

/// No suffix occurs more than once per sample: after `e` whole samples and the
/// first `k` suffixes of the next, only suffixes of at most `k` frames may have
/// reached `e + 1`.
spec fn occurrences_bounded(ev: Seq<Seq<Seq<char>>>, e: nat, k: nat) -> bool {
    forall|x: Seq<Seq<char>>|
        #[trigger] occurrences(ev, x) <= e + if 1 <= x.len() <= k {
            1nat
        } else {
            0nat
        }
}

/// The dominant attribution of a thread: the suffix that leads once every sample
/// of its window has been counted, with its count; `None` when no sample of the
/// window contributes a suffix.
pub fn dominant_suffix(t: &ThreadWindow) -> (r: Option<(Vec<String>, usize)>)
    ensures
        match r {
            None => window_dominant(t@.1) is None,
            Some(p) => window_dominant(t@.1) == Some((p.0.deep_view(), p.1 as nat)),
        },
{
    let ghost w = t@.1;
    let mut keys: Vec<Vec<String>> = Vec::new();
    let mut counts: Vec<usize> = Vec::new();
    let mut best: usize = 0;
    let mut best_count: usize = 0;
    let mut found: bool = false;
    let ghost mut ev: Seq<Seq<Seq<char>>> = Seq::empty();
    let mut e: usize = 0;
    assert(w.take(0) =~= Seq::<(u64, Seq<Seq<char>>)>::empty());
    while e < t.entries.len()
        invariant
            e <= t.entries@.len(),
            w == t@.1,
            ev == window_events(w.take(e as int)),
            table_ok(keys@, counts@, ev),
            occurrences_bounded(ev, e as nat, 0),
            found == dominant(ev) is Some,
            found ==> best < keys@.len() && dominant(ev) == Some(
                (keys@[best as int].deep_view(), best_count as nat),
            ),
        decreases t.entries@.len() - e,
    {
        let chain = &t.entries[e].chain;
        let len = chain.len();
        let ghost c = chain.deep_view();
        let ghost ev0 = ev;
        assert(w[e as int].1 == c);
        assert(chain_suffixes(c).take(0) =~= Seq::<Seq<Seq<char>>>::empty());
        assert(ev =~= ev0 + chain_suffixes(c).take(0));
        let mut k: usize = 0;
        while k + 1 < len
            invariant
                e < t.entries@.len() <= usize::MAX,
                len == chain@.len(),
                c == chain.deep_view(),
                k <= chain_suffixes(c).len(),
                ev == ev0 + chain_suffixes(c).take(k as int),
                table_ok(keys@, counts@, ev),
                occurrences_bounded(ev, e as nat, k as nat),
                found == dominant(ev) is Some,
                found ==> best < keys@.len() && dominant(ev) == Some(
                    (keys@[best as int].deep_view(), best_count as nat),
                ),
            decreases len - k,
        {
            let start = len - 1 - k;
            let ghost x = c.skip(start as int);
            assert(chain_suffixes(c)[k as int] == x);
            assert(x.len() == k + 1);
            let ghost ev1 = ev.push(x);
            assert(ev1 =~= ev0 + chain_suffixes(c).take(k + 1));
            assert(ev1.drop_last() =~= ev);
            let j = find_tail(&keys, chain, start);
            let ghost keys0 = keys@;
            proof {
                lemma_occurrences_push(ev, x, x);
                assert(occurrences(ev, x) <= e);
                assert forall|y: Seq<Seq<char>>| y != x implies #[trigger] occurrences(ev1, y)
                    == occurrences(ev, y) by {
                    lemma_occurrences_push(ev, x, y);
                }
            }
            if j < keys.len() {
                assert(counts@[j as int] == occurrences(ev, keys@[j as int].deep_view()));
                assert(counts@[j as int] <= e);
                let cnt = counts[j] + 1;
                counts.set(j, cnt);
            } else {
                proof {
                    if occurrences(ev, x) > 0 {
                        let i = choose|i: int| 0 <= i < keys@.len() && keys@[i].deep_view() == x;
                    }
                }
                keys.push(copy_tail(chain, start));
                counts.push(1);
            }
            proof {
                ev = ev1;
                assert forall|y: Seq<Seq<char>>| #[trigger] occurrences(ev, y) > 0 implies exists|
                    i: int,
                | 0 <= i < keys@.len() && keys@[i].deep_view() == y by {
                    if y == x {
                        assert(keys@[j as int].deep_view() == y);
                    } else {
                        assert(occurrences(ev0 + chain_suffixes(c).take(k as int), y) > 0);
                        let i = choose|i: int| 0 <= i < keys0.len() && keys0[i].deep_view() == y;
                        assert(keys@[i] == keys0[i]);
                    }
                }
            }
            let cnt = counts[j];
            if !found || cnt >= best_count {
                best = j;
                best_count = cnt;
                found = true;
            }
            k = k + 1;
        }
        proof {
            if len == 0 {
                assert(chain_suffixes(c).len() == 0);
            }
            assert(chain_suffixes(c).take(k as int) =~= chain_suffixes(c));
            assert(w.take(e + 1).drop_last() =~= w.take(e as int));
            assert forall|y: Seq<Seq<char>>| #[trigger] occurrences(ev, y) <= e + 1 + if 1 <= y.len() <= 0 {
                1nat
            } else {
                0nat
            } by {
            }
        }
        e = e + 1;
    }
    assert(w.take(e as int) =~= w);
    if found {
        Some((copy_frames(&keys[best]), best_count))
    } else {
        None
    }
}

/// A suffix that several threads' attributions share, with how many threads and
/// how many samples stand behind it.
pub struct FanOutPoint {
    pub suffix: Vec<String>,
    pub thread_count: usize,
    pub sample_count: u128,
}

impl View for FanOutPoint {
    type V = (Seq<Seq<char>>, nat, nat);

    open spec fn view(&self) -> (Seq<Seq<char>>, nat, nat) {
        (self.suffix.deep_view(), self.thread_count as nat, self.sample_count as nat)
    }
}

pub open spec fn points_view(v: Seq<FanOutPoint>) -> Seq<(Seq<Seq<char>>, nat, nat)> {
    v.map_values(|p: FanOutPoint| p@)
}

pub open spec fn attribution_view(o: Option<(Vec<String>, usize)>) -> Option<(Seq<Seq<char>>, nat)> {
    match o {
        None => None,
        Some(p) => Some((p.0.deep_view(), p.1 as nat)),
    }
}

pub open spec fn attributions_view(v: Seq<Option<(Vec<String>, usize)>>) -> Seq<
    Option<(Seq<Seq<char>>, nat)>,
> {
    v.map_values(|o: Option<(Vec<String>, usize)>| attribution_view(o))
}

/// The dominant attribution of every thread of a store, in the store's order.
pub open spec fn attributions(s: Seq<(u64, Seq<(u64, Seq<Seq<char>>)>)>) -> Seq<
    Option<(Seq<Seq<char>>, nat)>,
> {
    s.map_values(|t: (u64, Seq<(u64, Seq<Seq<char>>)>)| window_dominant(t.1))
}

/// How many threads are attributed to `x`.
pub open spec fn group_threads(a: Seq<Option<(Seq<Seq<char>>, nat)>>, x: Seq<Seq<char>>) -> nat
    decreases a.len(),
{
    if a.len() == 0 {
        0
    } else {
        group_threads(a.drop_last(), x) + match a.last() {
            Some(p) => if p.0 == x {
                1nat
            } else {
                0nat
            },
            None => 0nat,
        }
    }
}

/// The sum of the counts of the threads attributed to `x`.
pub open spec fn group_samples(a: Seq<Option<(Seq<Seq<char>>, nat)>>, x: Seq<Seq<char>>) -> nat
    decreases a.len(),
{
    if a.len() == 0 {
        0
    } else {
        group_samples(a.drop_last(), x) + match a.last() {
            Some(p) => if p.0 == x {
                p.1
            } else {
                0nat
            },
            None => 0nat,
        }
    }
}

/// The groups of attributions, one per distinct suffix.
pub open spec fn is_grouping(a: Seq<Option<(Seq<Seq<char>>, nat)>>, g: Seq<(Seq<Seq<char>>, nat, nat)>) -> bool {
    &&& forall|i: int|
        0 <= i < g.len() ==> #[trigger] g[i].1 == group_threads(a, g[i].0) && g[i].1 > 0
            && g[i].2 == group_samples(a, g[i].0)
    &&& forall|x: Seq<Seq<char>>|
        #[trigger] group_threads(a, x) > 0 ==> exists|i: int| 0 <= i < g.len() && g[i].0 == x
    &&& forall|i: int, j: int| 0 <= i < j < g.len() ==> (#[trigger] g[i]).0 != (#[trigger] g[j]).0
}

/// Whether a point is shown: its suffix has at least two frames (a lone shared
/// frame says nothing of a fan-out) and more than a single sample stands behind it.
pub open spec fn is_shown(p: (Seq<Seq<char>>, nat, nat)) -> bool {
    p.0.len() >= 2 && p.2 != 1
}

/// `p` may precede `q`: more threads, or as many threads and at least as many samples.
pub open spec fn ranks_no_lower(p: (Seq<Seq<char>>, nat, nat), q: (Seq<Seq<char>>, nat, nat)) -> bool {
    p.1 > q.1 || (p.1 == q.1 && p.2 >= q.2)
}

pub open spec fn is_ranked(out: Seq<(Seq<Seq<char>>, nat, nat)>) -> bool {
    forall|i: int, j: int| 0 <= i < j < out.len() ==> ranks_no_lower(#[trigger] out[i], #[trigger] out[j])
}

/// `out` holds exactly the shown points of the grouping `g`, each once, ranked.
pub open spec fn is_ranking_of(
    g: Seq<(Seq<Seq<char>>, nat, nat)>,
    out: Seq<(Seq<Seq<char>>, nat, nat)>,
) -> bool {
    &&& forall|i: int| 0 <= i < out.len() ==> is_shown(#[trigger] out[i]) && g.contains(out[i])
    &&& forall|j: int| 0 <= j < g.len() && is_shown(#[trigger] g[j]) ==> out.contains(g[j])
    &&& forall|i: int, j: int| 0 <= i < j < out.len() ==> (#[trigger] out[i]).0 != (#[trigger] out[j]).0
    &&& is_ranked(out)
}

/// The dominant attribution of every thread of the store, in the store's order.
pub fn attribute_threads(store: &FrameStore) -> (r: Vec<Option<(Vec<String>, usize)>>)
    ensures
        attributions_view(r@) == attributions(store@),
{
    let mut r: Vec<Option<(Vec<String>, usize)>> = Vec::new();
    let mut i: usize = 0;
    while i < store.threads.len()
        invariant
            i <= store.threads@.len(),
            r@.len() == i,
            forall|j: int| 0 <= j < i ==> attribution_view(#[trigger] r@[j]) == window_dominant(store@[j].1),
        decreases store.threads@.len() - i,
    {
        let d = dominant_suffix(&store.threads[i]);
        r.push(d);
        i = i + 1;
    }
    assert(attributions_view(r@) =~= attributions(store@));
    r
}

/// Whether two chains hold the same frames.
pub fn same_frames(a: &Vec<String>, b: &Vec<String>) -> (r: bool)
    ensures
        r == (a.deep_view() == b.deep_view()),
{
    assert(b.deep_view().skip(0) =~= b.deep_view());
    same_tail(a, b, 0)
}

pub proof fn lemma_group_step(a: Seq<Option<(Seq<Seq<char>>, nat)>>, i: int)
    requires
        0 <= i < a.len(),
    ensures
        forall|x: Seq<Seq<char>>|
            #[trigger] group_threads(a.take(i + 1), x) == group_threads(a.take(i), x) + match a[i] {
                Some(p) => if p.0 == x {
                    1nat
                } else {
                    0nat
                },
                None => 0nat,
            },
        forall|x: Seq<Seq<char>>|
            #[trigger] group_samples(a.take(i + 1), x) == group_samples(a.take(i), x) + match a[i] {
                Some(p) => if p.0 == x {
                    p.1
                } else {
                    0nat
                },
                None => 0nat,
            },
{
    assert(a.take(i + 1).drop_last() =~= a.take(i));
    assert(a.take(i + 1).last() == a[i]);
}

pub proof fn lemma_no_threads_no_samples(a: Seq<Option<(Seq<Seq<char>>, nat)>>, x: Seq<Seq<char>>)
    ensures
        group_threads(a, x) == 0 ==> group_samples(a, x) == 0,
    decreases a.len(),
{
    if a.len() > 0 {
        lemma_no_threads_no_samples(a.drop_last(), x);
    }
}

/// Groups the attributions by suffix, in the order the suffixes first appear:
/// each group counts the threads attributed to its suffix and sums their counts.
pub fn group_attributions(attrs: &Vec<Option<(Vec<String>, usize)>>) -> (r: Vec<FanOutPoint>)
    ensures
        is_grouping(attributions_view(attrs@), points_view(r@)),
{
    let ghost a = attributions_view(attrs@);
    let mut groups: Vec<FanOutPoint> = Vec::new();
    let mut i: usize = 0;
    assert(a.take(0) =~= Seq::<Option<(Seq<Seq<char>>, nat)>>::empty());
    assert(points_view(groups@) =~= Seq::<(Seq<Seq<char>>, nat, nat)>::empty());
    let n = attrs.len();
    while i < n
        invariant
            i <= n,
            n == attrs@.len(),
            a == attributions_view(attrs@),
            is_grouping(a.take(i as int), points_view(groups@)),
            forall|x: Seq<Seq<char>>| #[trigger] group_threads(a.take(i as int), x) <= i,
            forall|x: Seq<Seq<char>>|
                #[trigger] group_samples(a.take(i as int), x) <= i * 0xffff_ffff_ffff_ffffnat,
        decreases attrs@.len() - i,
    {
        proof {
            lemma_group_step(a, i as int);
        }
        let ghost g0 = points_view(groups@);
        assert(a[i as int] == attribution_view(attrs@[i as int]));
        match &attrs[i] {
            None => {
                assert forall|k: int| 0 <= k < g0.len() implies #[trigger] g0[k].1 == group_threads(a.take(i + 1), g0[k].0) && g0[k].1 > 0
                    && g0[k].2 == group_samples(a.take(i + 1), g0[k].0) by {
                    assert(g0[k].1 == group_threads(a.take(i as int), g0[k].0));
                    assert(g0[k].2 == group_samples(a.take(i as int), g0[k].0));
                }
                assert forall|x2: Seq<Seq<char>>| #[trigger] group_threads(a.take(i + 1), x2) > 0 implies exists|k: int| 0 <= k < g0.len() && g0[k].0 == x2 by {
                    assert(group_threads(a.take(i as int), x2) > 0);
                }
            },
            Some(p) => {
                let suffix = &p.0;
                let count = p.1;
                let ghost x = suffix.deep_view();
                let mut j: usize = 0;
                while j < groups.len() && !same_frames(&groups[j].suffix, suffix)
                    invariant
                        j <= groups@.len(),
                        g0 == points_view(groups@),
                        x == suffix.deep_view(),
                        forall|k: int| 0 <= k < j ==> g0[k].0 != x,
                    decreases groups@.len() - j,
                {
                    assert(g0[j as int].0 == groups@[j as int].suffix.deep_view());
                    j = j + 1;
                }
                assert(group_threads(a.take(i as int), x) <= i);
                assert(group_samples(a.take(i as int), x) <= i * 0xffff_ffff_ffff_ffffnat);
                assert((i + 1) * 0xffff_ffff_ffff_ffffnat <= 0x1_0000_0000_0000_0000nat
                    * 0xffff_ffff_ffff_ffffnat) by (nonlinear_arith)
                    requires
                        i + 1 <= 0x1_0000_0000_0000_0000nat,
                ;
                if j < groups.len() {
                    assert(g0[j as int].0 == x);
                    let old_point = groups.remove(j);
                    assert(old_point@ == g0[j as int]);
                    assert(g0[j as int].1 == group_threads(a.take(i as int), g0[j as int].0));
                    assert(g0[j as int].2 == group_samples(a.take(i as int), g0[j as int].0));
                    assert(count as nat <= 0xffff_ffff_ffff_ffffnat);
                    let point = FanOutPoint {
                        suffix: old_point.suffix,
                        thread_count: old_point.thread_count + 1,
                        sample_count: old_point.sample_count + count as u128,
                    };
                    groups.insert(j, point);
                    let ghost g1 = points_view(groups@);
                    assert(g1 =~= g0.update(j as int, point@));
                    assert forall|k: int| 0 <= k < g1.len() implies #[trigger] g1[k].1 == group_threads(a.take(i + 1), g1[k].0) && g1[k].1 > 0
                        && g1[k].2 == group_samples(a.take(i + 1), g1[k].0) by {
                        assert(g0[k].1 == group_threads(a.take(i as int), g0[k].0));
                        assert(g0[k].2 == group_samples(a.take(i as int), g0[k].0));
                        if k != j {
                            assert(g0[k].0 != g0[j as int].0);
                        }
                    }
                    assert forall|k: int, l: int| 0 <= k < l < g1.len() implies (#[trigger] g1[k]).0 != (#[trigger] g1[l]).0 by {
                        assert(g0[k].0 != g0[l].0);
                    }
                    assert forall|x2: Seq<Seq<char>>| #[trigger] group_threads(a.take(i + 1), x2) > 0 implies exists|k: int| 0 <= k < g1.len() && g1[k].0 == x2 by {
                        if x2 != x {
                            let k = choose|k: int| 0 <= k < g0.len() && g0[k].0 == x2;
                            assert(g1[k].0 == x2);
                        } else {
                            assert(g1[j as int].0 == x2);
                        }
                    }
                } else {
                    proof {
                        lemma_no_threads_no_samples(a.take(i as int), x);
                        if group_threads(a.take(i as int), x) > 0 {
                            let k = choose|k: int| 0 <= k < g0.len() && g0[k].0 == x;
                        }
                    }
                    let point = FanOutPoint {
                        suffix: copy_frames(suffix),
                        thread_count: 1,
                        sample_count: count as u128,
                    };
                    groups.push(point);
                    let ghost g1 = points_view(groups@);
                    assert(g1 =~= g0.push(point@));
                    assert forall|k: int| 0 <= k < g1.len() implies #[trigger] g1[k].1 == group_threads(a.take(i + 1), g1[k].0) && g1[k].1 > 0
                        && g1[k].2 == group_samples(a.take(i + 1), g1[k].0) by {
                        if k < g0.len() {
                            assert(g0[k].1 == group_threads(a.take(i as int), g0[k].0));
                            assert(g0[k].2 == group_samples(a.take(i as int), g0[k].0));
                            assert(g0[k].0 != x);
                        }
                    }
                    assert forall|k: int, l: int| 0 <= k < l < g1.len() implies (#[trigger] g1[k]).0 != (#[trigger] g1[l]).0 by {
                        if l < g0.len() {
                            assert(g0[k].0 != g0[l].0);
                        } else {
                            assert(g0[k].0 != x);
                        }
                    }
                    assert forall|x2: Seq<Seq<char>>| #[trigger] group_threads(a.take(i + 1), x2) > 0 implies exists|k: int| 0 <= k < g1.len() && g1[k].0 == x2 by {
                        if x2 != x {
                            let k = choose|k: int| 0 <= k < g0.len() && g0[k].0 == x2;
                            assert(g1[k].0 == x2);
                        } else {
                            assert(g1[g0.len() as int].0 == x2);
                        }
                    }
                }
            },
        }
        i = i + 1;
    }
    assert(a.take(i as int) =~= a);
    groups
}

/// Whether `p` may precede `q` in the ranking.
pub fn ranks_at_least(p: &FanOutPoint, q: &FanOutPoint) -> (r: bool)
    ensures
        r == ranks_no_lower(p@, q@),
{
    p.thread_count > q.thread_count || (p.thread_count == q.thread_count && p.sample_count
        >= q.sample_count)
}

/// Drops the points that are not shown and ranks the rest: more threads first,
/// then more samples; points equal in both keep the order in which they came.
pub fn rank_points(groups: Vec<FanOutPoint>) -> (r: Vec<FanOutPoint>)
    requires
        forall|i: int, j: int|
            0 <= i < j < groups@.len() ==> (#[trigger] groups@[i])@.0 != (#[trigger] groups@[j])@.0,
    ensures
        is_ranking_of(points_view(groups@), points_view(r@)),
{
    let ghost g = points_view(groups@);
    let mut rest = groups;
    let mut out: Vec<FanOutPoint> = Vec::new();
    let ghost mut i: int = 0;
    assert(points_view(rest@) =~= g.skip(0));
    while rest.len() > 0
        invariant
            0 <= i <= g.len(),
            points_view(rest@) == g.skip(i),
            forall|k: int, l: int| 0 <= k < l < g.len() ==> (#[trigger] g[k]).0 != (#[trigger] g[l]).0,
            forall|q: int|
                0 <= q < out@.len() ==> is_shown(#[trigger] points_view(out@)[q]) && g.take(i).contains(
                    points_view(out@)[q],
                ),
            forall|m: int| 0 <= m < i && is_shown(#[trigger] g[m]) ==> points_view(out@).contains(g[m]),
            forall|q1: int, q2: int|
                0 <= q1 < q2 < out@.len() ==> (#[trigger] points_view(out@)[q1]).0 != (
                #[trigger] points_view(out@)[q2]).0,
            is_ranked(points_view(out@)),
        decreases rest@.len(),
    {
        let ghost o0 = points_view(out@);
        let ghost r0 = rest@;
        assert(points_view(r0).len() == r0.len());
        assert(points_view(r0)[0] == g.skip(i)[0]);
        let p = rest.remove(0);
        assert(p == r0[0]);
        assert(p@ == g[i]);
        assert(rest@ =~= r0.skip(1));
        assert forall|k: int| 0 <= k < rest@.len() implies points_view(rest@)[k] == g.skip(i + 1)[k] by {
            assert(rest@[k] == r0[k + 1]);
            assert(points_view(r0)[k + 1] == g.skip(i)[k + 1]);
        }
        assert(points_view(rest@) =~= g.skip(i + 1));
        if p.suffix.len() >= 2 && p.sample_count != 1 {
            let mut pos: usize = 0;
            while pos < out.len() && ranks_at_least(&out[pos], &p)
                invariant
                    pos <= out@.len(),
                    o0 == points_view(out@),
                    forall|q: int| 0 <= q < pos ==> ranks_no_lower(#[trigger] o0[q], p@),
                decreases out@.len() - pos,
            {
                pos = pos + 1;
            }
            out.insert(pos, p);
            let ghost o1 = points_view(out@);
            assert(o1 =~= o0.insert(pos as int, p@));
            assert forall|q: int| 0 <= q < o1.len() implies is_shown(#[trigger] o1[q]) && g.take(i + 1).contains(o1[q]) by {
                if q < pos {
                    assert(o1[q] == o0[q]);
                    let m = choose|m: int| 0 <= m < g.take(i).len() && g.take(i)[m] == o0[q];
                    assert(g.take(i + 1)[m] == o0[q]);
                } else if q == pos {
                    assert(g.take(i + 1)[i] == p@);
                } else {
                    assert(o1[q] == o0[q - 1]);
                    let m = choose|m: int| 0 <= m < g.take(i).len() && g.take(i)[m] == o0[q - 1];
                    assert(g.take(i + 1)[m] == o0[q - 1]);
                }
            }
            assert forall|m: int| 0 <= m < i + 1 && is_shown(#[trigger] g[m]) implies o1.contains(g[m]) by {
                if m < i {
                    let q = choose|q: int| 0 <= q < o0.len() && o0[q] == g[m];
                    if q < pos {
                        assert(o1[q] == g[m]);
                    } else {
                        assert(o1[q + 1] == g[m]);
                    }
                } else {
                    assert(o1[pos as int] == g[m]);
                }
            }
            assert forall|q: int| 0 <= q < o0.len() implies (#[trigger] o0[q]).0 != p@.0 by {
                let m = choose|m: int| 0 <= m < g.take(i).len() && g.take(i)[m] == o0[q];
                assert(g[m] == o0[q]);
            }
            assert forall|q1: int, q2: int| 0 <= q1 < q2 < o1.len() implies (#[trigger] o1[q1]).0 != (#[trigger] o1[q2]).0 by {
                if q2 < pos {
                    assert(o0[q1].0 != o0[q2].0);
                } else if q2 == pos {
                    assert(o1[q1] == o0[q1]);
                } else if q1 < pos {
                    assert(o0[q1].0 != o0[q2 - 1].0);
                } else if q1 == pos {
                    assert(o1[q2] == o0[q2 - 1]);
                } else {
                    assert(o0[q1 - 1].0 != o0[q2 - 1].0);
                }
            }
            assert forall|q1: int, q2: int| 0 <= q1 < q2 < o1.len() implies ranks_no_lower(#[trigger] o1[q1], #[trigger] o1[q2]) by {
                if q2 < pos {
                    assert(ranks_no_lower(o0[q1], o0[q2]));
                } else if q2 == pos {
                    assert(o1[q1] == o0[q1]);
                } else if q1 < pos {
                    assert(ranks_no_lower(o0[q1], o0[q2 - 1]));
                } else if q1 == pos {
                    assert(!ranks_no_lower(o0[pos as int], p@));
                    if q2 - 1 > pos {
                        assert(ranks_no_lower(o0[pos as int], o0[q2 - 1]));
                    }
                } else {
                    assert(ranks_no_lower(o0[q1 - 1], o0[q2 - 1]));
                }
            }
        } else {
            assert forall|q: int| 0 <= q < o0.len() implies is_shown(#[trigger] o0[q]) && g.take(i + 1).contains(o0[q]) by {
                let m = choose|m: int| 0 <= m < g.take(i).len() && g.take(i)[m] == o0[q];
                assert(g.take(i + 1)[m] == o0[q]);
            }
        }
        proof {
            i = i + 1;
        }
    }
    assert(g.take(i) =~= g);
    out
}

/// The shown fan-out points of the store, ranked.
pub open spec fn is_fan_out_of(
    s: Seq<(u64, Seq<(u64, Seq<Seq<char>>)>)>,
    out: Seq<(Seq<Seq<char>>, nat, nat)>,
) -> bool {
    let a = attributions(s);
    &&& forall|i: int|
        0 <= i < out.len() ==> is_shown(#[trigger] out[i]) && out[i].1 == group_threads(a, out[i].0)
            && out[i].1 > 0 && out[i].2 == group_samples(a, out[i].0)
    &&& forall|x: Seq<Seq<char>>|
        group_threads(a, x) > 0 && is_shown((x, group_threads(a, x), group_samples(a, x)))
            ==> exists|i: int| 0 <= i < out.len() && (#[trigger] out[i]).0 == x
    &&& forall|i: int, j: int| 0 <= i < j < out.len() ==> (#[trigger] out[i]).0 != (#[trigger] out[j]).0
    &&& is_ranked(out)
}

/// One aggregation pass over the store: attributes each thread, groups the
/// attributions by suffix, drops the points that are not shown, and ranks the rest.
pub fn fan_out_points(store: &FrameStore) -> (r: Vec<FanOutPoint>)
    ensures
        is_fan_out_of(store@, points_view(r@)),
{
    let attrs = attribute_threads(store);
    let groups = group_attributions(&attrs);
    let ghost a = attributions(store@);
    let ghost g = points_view(groups@);
    assert forall|i: int, j: int| 0 <= i < j < groups@.len() implies (#[trigger] groups@[i])@.0 != (#[trigger] groups@[j])@.0 by {
        assert(g[i].0 != g[j].0);
    }
    let r = rank_points(groups);
    let ghost o = points_view(r@);
    assert forall|i: int| 0 <= i < o.len() implies is_shown(#[trigger] o[i]) && o[i].1 == group_threads(a, o[i].0)
            && o[i].1 > 0 && o[i].2 == group_samples(a, o[i].0) by {
        let m = choose|m: int| 0 <= m < g.len() && g[m] == o[i];
        assert(g[m].1 == group_threads(a, g[m].0));
    }
    assert forall|x: Seq<Seq<char>>|
        group_threads(a, x) > 0 && is_shown((x, group_threads(a, x), group_samples(a, x)))
            implies exists|i: int| 0 <= i < o.len() && (#[trigger] o[i]).0 == x by {
        let m = choose|m: int| 0 <= m < g.len() && g[m].0 == x;
        assert(g[m].1 == group_threads(a, g[m].0));
        assert(is_shown(g[m]));
        let i = choose|i: int| 0 <= i < o.len() && o[i] == g[m];
        assert(o[i].0 == x);
    }
    r
}

/// The largest sample count among the points, 0 when there are none; it scales
/// each point's intensity.
pub fn max_sample_count(points: &Vec<FanOutPoint>) -> (r: u128)
    ensures
        forall|i: int| 0 <= i < points@.len() ==> (#[trigger] points@[i]).sample_count <= r,
        points@.len() == 0 ==> r == 0,
        points@.len() > 0 ==> exists|i: int| 0 <= i < points@.len() && (#[trigger] points@[i]).sample_count == r,
{
    let mut r: u128 = 0;
    let mut i: usize = 0;
    while i < points.len()
        invariant
            i <= points@.len(),
            forall|j: int| 0 <= j < i ==> (#[trigger] points@[j]).sample_count <= r,
            i == 0 ==> r == 0,
            i > 0 ==> exists|j: int| 0 <= j < i && (#[trigger] points@[j]).sample_count == r,
        decreases points@.len() - i,
    {
        if i == 0 || points[i].sample_count > r {
            r = points[i].sample_count;
        }
        i = i + 1;
    }
    r
}

/// Whether a ranking shows suffix `x`.
pub open spec fn shows(o: Seq<(Seq<Seq<char>>, nat, nat)>, x: Seq<Seq<char>>) -> bool {
    exists|i: int| 0 <= i < o.len() && (#[trigger] o[i]).0 == x
}

/// Rankings of one store show the same suffixes, whichever order they give to
/// points that tie: which points are shown depends on the store alone.
pub proof fn lemma_ranking_membership(
    s: Seq<(u64, Seq<(u64, Seq<Seq<char>>)>)>,
    o1: Seq<(Seq<Seq<char>>, nat, nat)>,
    o2: Seq<(Seq<Seq<char>>, nat, nat)>,
)
    requires
        is_fan_out_of(s, o1),
        is_fan_out_of(s, o2),
    ensures
        forall|x: Seq<Seq<char>>| #[trigger] shows(o1, x) <==> shows(o2, x),
{
    let a = attributions(s);
    assert forall|x: Seq<Seq<char>>| #[trigger] shows(o1, x) implies shows(o2, x) by {
        let i = choose|i: int| 0 <= i < o1.len() && (#[trigger] o1[i]).0 == x;
        assert(o1[i] == (x, group_threads(a, x), group_samples(a, x)));
    }
    assert forall|x: Seq<Seq<char>>| #[trigger] shows(o2, x) implies shows(o1, x) by {
        let j = choose|j: int| 0 <= j < o2.len() && (#[trigger] o2[j]).0 == x;
        assert(o2[j] == (x, group_threads(a, x), group_samples(a, x)));
    }
}

} // verus!

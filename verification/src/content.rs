//! Per-topic state: a capacity-bounded, time-ordered sample history (newest
//! at the front), the topic's color table, its layer tag, and its bounds
//! and render cache.

use std::collections::VecDeque;

use vstd::prelude::*;

use crate::aabb::spec_scan_boxes;
use crate::aabb::AABB;
use crate::cache::spec_apply_scan;
use crate::cache::spec_mutate;
use crate::cache::spec_rebound;
use crate::cache::CacheState;
use crate::cache::TopicCache;
use crate::colors::ColorMap;
use crate::vertex::Shape;
use crate::vertex::Vertex;

verus! {

/// The default sample capacity of a fresh topic.
pub const DEFAULT_CAPACITY: usize = 2000;

/// One push step: the new sample goes to the front; at capacity, the back
/// sample leaves first.
pub open spec fn spec_push_one(q: Seq<(u64, Vertex)>, p: (u64, Vertex), cap: nat) -> Seq<
    (u64, Vertex),
> {
    if q.len() >= cap {
        seq![p] + q.drop_last()
    } else {
        seq![p] + q
    }
}

/// A run of pushes of the same timestamp, front to back of `vs`.
pub open spec fn spec_push_all(
    q: Seq<(u64, Vertex)>,
    time: u64,
    vs: Seq<Vertex>,
    cap: nat,
) -> Seq<(u64, Vertex)>
    decreases vs.len(),
{
    if vs.len() == 0 {
        q
    } else {
        spec_push_all(spec_push_one(q, (time, vs[0]), cap), time, vs.skip(1), cap)
    }
}

/// The pushed samples as history entries: last pushed in front.
pub open spec fn spec_rev_pairs(time: u64, vs: Seq<Vertex>) -> Seq<(u64, Vertex)>
    decreases vs.len(),
{
    if vs.len() == 0 {
        Seq::empty()
    } else {
        spec_rev_pairs(time, vs.skip(1)) + seq![(time, vs[0])]
    }
}

/// The front `cap` entries of a history, or all of it if shorter.
pub open spec fn spec_keep_front(q: Seq<(u64, Vertex)>, cap: nat) -> Seq<(u64, Vertex)> {
    if q.len() <= cap {
        q
    } else {
        q.take(cap as int)
    }
}

/// How many entries an age eviction with deadline `d` removes: counting
/// from the back, every entry strictly older than `d`, stopping at the
/// first that is not.
pub open spec fn spec_evict_count(q: Seq<(u64, Vertex)>, d: u64) -> int
    decreases q.len(),
{
    if q.len() == 0 {
        0
    } else if q.last().0 < d {
        1 + spec_evict_count(q.drop_last(), d)
    } else {
        0
    }
}

/// Timestamps never increase from front (newest) to back (oldest).
pub open spec fn spec_time_ordered(q: Seq<(u64, Vertex)>) -> bool {
    forall|i: int, j: int| 0 <= i <= j < q.len() ==> (#[trigger] q[i]).0 >= (#[trigger] q[j]).0
}

proof fn lemma_push_all_snoc(q: Seq<(u64, Vertex)>, time: u64, vs: Seq<Vertex>, v: Vertex, cap: nat)
    ensures
        spec_push_all(q, time, vs.push(v), cap) == spec_push_one(
            spec_push_all(q, time, vs, cap),
            (time, v),
            cap,
        ),
    decreases vs.len(),
{
    let w = vs.push(v);
    if vs.len() == 0 {
        assert(w[0] == v);
        assert(w.skip(1) =~= Seq::<Vertex>::empty());
        let q1 = spec_push_one(q, (time, v), cap);
        assert(spec_push_all(q, time, w, cap) == spec_push_all(q1, time, w.skip(1), cap));
        assert(spec_push_all(q1, time, Seq::<Vertex>::empty(), cap) == q1);
        assert(spec_push_all(q, time, vs, cap) == q);
    } else {
        assert(w[0] == vs[0]);
        assert(w.skip(1) =~= vs.skip(1).push(v));
        let q1 = spec_push_one(q, (time, vs[0]), cap);
        assert(spec_push_all(q, time, w, cap) == spec_push_all(q1, time, w.skip(1), cap));
        lemma_push_all_snoc(q1, time, vs.skip(1), v, cap);
    }
}

proof fn lemma_push_all_closed(q: Seq<(u64, Vertex)>, time: u64, vs: Seq<Vertex>, cap: nat)
    requires
        cap >= 1,
        q.len() <= cap,
    ensures
        spec_push_all(q, time, vs, cap) == spec_keep_front(spec_rev_pairs(time, vs) + q, cap),
        spec_push_all(q, time, vs, cap).len() <= cap,
    decreases vs.len(),
{
    if vs.len() == 0 {
        assert(spec_rev_pairs(time, vs) + q =~= q);
    } else {
        let p = (time, vs[0]);
        let q1 = spec_push_one(q, p, cap);
        assert(q1.len() <= cap);
        lemma_push_all_closed(q1, time, vs.skip(1), cap);
        let rest = spec_rev_pairs(time, vs.skip(1));
        assert(spec_rev_pairs(time, vs) + q =~= rest + (seq![p] + q));
        if q.len() < cap {
            assert(q1 =~= seq![p] + q);
        } else {
            assert(q1 =~= (seq![p] + q).drop_last());
            assert(spec_keep_front(rest + q1, cap) =~= spec_keep_front(
                rest + (seq![p] + q),
                cap,
            ));
        }
    }
}

/// What age eviction leaves: everything it kept is at least as new as the
/// deadline's cut, everything it dropped was strictly older.
pub proof fn lemma_evict_count_bounds(q: Seq<(u64, Vertex)>, d: u64)
    ensures
        0 <= spec_evict_count(q, d) <= q.len(),
        forall|j: int| q.len() - spec_evict_count(q, d) <= j < q.len() ==> (#[trigger] q[j]).0 < d,
        spec_evict_count(q, d) < q.len() ==> q[q.len() - spec_evict_count(q, d) - 1].0 >= d,
    decreases q.len(),
{
    if q.len() > 0 && q.last().0 < d {
        lemma_evict_count_bounds(q.drop_last(), d);
        let p = q.drop_last();
        let c = spec_evict_count(q, d);
        assert forall|j: int| q.len() - c <= j < q.len() implies (#[trigger] q[j]).0 < d by {
            if j < q.len() - 1 {
                assert(q[j] == p[j]);
            }
        }
        if c < q.len() {
            assert(q[q.len() - c - 1] == p[p.len() - (c - 1) - 1]);
        }
    }
}

proof fn lemma_evict_count_of_fresh(q: Seq<(u64, Vertex)>, d: u64, n: int)
    requires
        0 <= n <= q.len(),
        forall|j: int| n <= j < q.len() ==> (#[trigger] q[j]).0 < d,
        n > 0 ==> q[n - 1].0 >= d,
    ensures
        spec_evict_count(q, d) == q.len() - n,
    decreases q.len(),
{
    if q.len() > 0 {
        if n < q.len() {
            assert(q.last().0 < d);
            lemma_evict_count_of_fresh(q.drop_last(), d, n);
        }
    }
}

/// Age eviction is monotone: once a history satisfies a deadline, any
/// deadline no later than it evicts nothing more.
pub proof fn lemma_evict_monotone(q: Seq<(u64, Vertex)>, d1: u64, d2: u64)
    requires
        spec_time_ordered(q),
        d2 <= d1,
    ensures
        spec_evict_count(q.take(q.len() - spec_evict_count(q, d1)), d2) == 0,
{
    lemma_evict_count_bounds(q, d1);
    let k = q.len() - spec_evict_count(q, d1);
    let kept = q.take(k);
    if k > 0 {
        assert(q[k - 1].0 >= d1);
        assert forall|j: int| 0 <= j < kept.len() implies (#[trigger] kept[j]).0 >= d2 by {
            assert(q[j].0 >= q[k - 1].0);
        }
        lemma_evict_count_of_fresh(kept, d2, kept.len() as int);
    }
}

/// One topic's full state.
pub struct TopicContent {
    layer: Vec<u8>,
    capacity: usize,
    queue: VecDeque<(u64, Vertex)>,
    color_map: ColorMap,
    cache: TopicCache,
}

impl TopicContent {
    /// The topic's layer tag; empty means "always visible".
    pub closed spec fn tag(&self) -> Seq<u8> {
        self.layer@
    }

    /// The topic's layer tag.
    pub fn layer(&self) -> (r: &Vec<u8>)
        ensures
            r@ == self.tag(),
    {
        &self.layer
    }

    /// Retags the topic onto a layer.
    pub fn set_layer(&mut self, layer: Vec<u8>)
        requires
            old(self).wf(),
        ensures
            final(self).wf(),
            final(self).tag() == layer@,
            final(self).entries() == old(self).entries(),
            final(self).cap() == old(self).cap(),
            final(self).colors() == old(self).colors(),
            final(self).cache_state() == old(self).cache_state(),
    {
        self.layer = layer;
    }

    /// The history, newest sample first.
    pub closed spec fn entries(&self) -> Seq<(u64, Vertex)> {
        self.queue@
    }

    /// The topic's sample capacity.
    pub closed spec fn cap(&self) -> usize {
        self.capacity
    }

    /// The topic's color table.
    pub closed spec fn colors(&self) -> Map<u8, u32> {
        self.color_map@
    }

    /// The topic's cache state.
    pub closed spec fn cache_state(&self) -> CacheState {
        self.cache@
    }

    /// Capacity is positive, the history never exceeds it, and entries are
    /// ordered newest to oldest.
    pub open spec fn wf(&self) -> bool {
        &&& self.cap() >= 1
        &&& self.entries().len() <= self.cap()
        &&& spec_time_ordered(self.entries())
    }

    /// A fresh, empty topic with no layer tag.
    pub fn new() -> (r: TopicContent)
        ensures
            r.wf(),
            r.tag() == Seq::<u8>::empty(),
            r.entries() == Seq::<(u64, Vertex)>::empty(),
            r.cap() == DEFAULT_CAPACITY,
            r.colors() == Map::<u8, u32>::empty(),
            r.cache_state() == (CacheState {
                focus_len: 0,
                bound: crate::cache::Bound::Invalid,
                render_valid: false,
            }),
    {
        TopicContent {
            layer: Vec::new(),
            capacity: DEFAULT_CAPACITY,
            queue: VecDeque::new(),
            color_map: ColorMap::new(),
            cache: TopicCache::new(),
        }
    }

    /// Number of retained samples.
    pub fn len(&self) -> (r: usize)
        ensures
            r == self.entries().len(),
    {
        self.queue.len()
    }

    /// The sample at `i`, newest first.
    pub fn get(&self, i: usize) -> (r: (u64, Vertex))
        requires
            i < self.entries().len(),
        ensures
            r == self.entries()[i as int],
    {
        self.queue[i]
    }

    /// The retained capacity.
    pub fn capacity(&self) -> (r: usize)
        ensures
            r == self.cap(),
    {
        self.capacity
    }

    /// Timestamp of the oldest retained sample.
    pub fn begin(&self) -> (r: Option<u64>)
        ensures
            self.entries().len() == 0 ==> r is None,
            self.entries().len() > 0 ==> r == Some(self.entries().last().0),
    {
        if self.queue.len() == 0 {
            None
        } else {
            Some(self.queue[self.queue.len() - 1].0)
        }
    }

    /// Sets the sample capacity; shrinking below the current length drops
    /// the oldest samples and invalidates the caches.
    pub fn set_capacity(&mut self, len: usize)
        requires
            old(self).wf(),
            len >= 1,
        ensures
            final(self).wf(),
            final(self).cap() == len,
            final(self).entries() == spec_keep_front(old(self).entries(), len as nat),
            final(self).tag() == old(self).tag(),
            final(self).colors() == old(self).colors(),
            final(self).cache_state() == if old(self).entries().len() > len {
                spec_mutate(old(self).cache_state())
            } else {
                old(self).cache_state()
            },
    {
        if self.capacity != len {
            self.capacity = len;
            if self.queue.len() > len {
                self.queue.truncate(len);
                self.cache.clear();
            }
        }
    }

    /// Sets the focus window of the bounds cache.
    pub fn set_focus(&mut self, len: usize)
        requires
            old(self).wf(),
        ensures
            final(self).wf(),
            final(self).entries() == old(self).entries(),
            final(self).cap() == old(self).cap(),
            final(self).tag() == old(self).tag(),
            final(self).colors() == old(self).colors(),
            old(self).cache_state().focus_len == len ==> final(self).cache_state() == old(
                self,
            ).cache_state(),
            old(self).cache_state().focus_len != len ==> final(self).cache_state() == (CacheState {
                focus_len: len,
                bound: spec_rebound(old(self).cache_state().bound),
                ..old(self).cache_state()
            }),
    {
        self.cache.set_focus(len);
    }

    /// Sets the color of a level; an actual change drops the render
    /// geometry so the next frame repaints.
    pub fn set_color(&mut self, i: u8, color: u32)
        requires
            old(self).wf(),
        ensures
            final(self).wf(),
            final(self).entries() == old(self).entries(),
            final(self).cap() == old(self).cap(),
            final(self).tag() == old(self).tag(),
            final(self).colors() == old(self).colors().insert(i, color),
            final(self).cache_state() == if old(self).colors().contains_key(i) && old(
                self,
            ).colors()[i] == color {
                old(self).cache_state()
            } else {
                CacheState { render_valid: false, ..old(self).cache_state() }
            },
    {
        if self.color_map.set(i, color) {
            self.cache.redraw();
        }
    }

    /// The color of a level, entering the default black first where none is
    /// set.
    pub fn color_of(&mut self, level: u8) -> (r: u32)
        requires
            old(self).wf(),
        ensures
            final(self).wf(),
            final(self).entries() == old(self).entries(),
            final(self).cap() == old(self).cap(),
            final(self).tag() == old(self).tag(),
            final(self).cache_state() == old(self).cache_state(),
            final(self).colors() == old(self).colors().insert(level, r),
            r == if old(self).colors().contains_key(level) {
                old(self).colors()[level]
            } else {
                crate::colors::BLACK
            },
    {
        self.color_map.get_or_insert_default(level)
    }

    /// The color table as `(level, color)` pairs.
    pub fn color_entries(&self) -> (r: &Vec<(u8, u32)>)
        ensures
            forall|l: u8| self.colors().contains_key(l) ==> exists|j: int|
                0 <= j < r@.len() && (#[trigger] r@[j]) == (l, self.colors()[l]),
    {
        self.color_map.entries()
    }

    /// Pushes a batch of samples taken at `time`: each goes to the front,
    /// evicting from the back at capacity, and the caches are invalidated.
    pub fn extend_from_slice(&mut self, time: u64, vs: &Vec<Vertex>)
        requires
            old(self).wf(),
            old(self).entries().len() > 0 ==> time >= old(self).entries()[0].0,
        ensures
            final(self).wf(),
            final(self).cap() == old(self).cap(),
            final(self).tag() == old(self).tag(),
            final(self).colors() == old(self).colors(),
            final(self).entries() == spec_keep_front(
                spec_rev_pairs(time, vs@) + old(self).entries(),
                old(self).cap() as nat,
            ),
            final(self).entries().len() <= old(self).cap(),
            final(self).cache_state() == spec_mutate(old(self).cache_state()),
    {
        let ghost q0 = self.queue@;
        let ghost cap = self.capacity as nat;
        let mut i: usize = 0;
        while i < vs.len()
            invariant
                old(self).wf(),
                i <= vs@.len(),
                cap == self.capacity as nat,
                cap >= 1,
                q0 == old(self).entries(),
                self.capacity == old(self).cap(),
                self.tag() == old(self).tag(),
                self.color_map@ == old(self).colors(),
                self.cache@ == old(self).cache_state(),
                self.queue@ == spec_push_all(q0, time, vs@.take(i as int), cap),
                self.queue@.len() <= self.capacity,
                spec_time_ordered(self.queue@),
                self.queue@.len() > 0 && i > 0 ==> self.queue@[0].0 == time,
                self.queue@.len() > 0 && i == 0 ==> time >= self.queue@[0].0,
            decreases vs@.len() - i,
        {
            proof {
                assert(vs@.take(i as int).push(vs@[i as int]) =~= vs@.take(i + 1));
                lemma_push_all_snoc(q0, time, vs@.take(i as int), vs@[i as int], cap);
            }
            let ghost qb = self.queue@;
            if self.queue.len() >= self.capacity {
                self.queue.pop_back();
                proof {
                    assert(self.queue@ =~= qb.drop_last());
                }
            }
            self.queue.push_front((time, vs[i]));
            proof {
                let p = (time, vs@[i as int]);
                if qb.len() >= cap {
                    assert(self.queue@ =~= seq![p] + qb.drop_last());
                } else {
                    assert(self.queue@ =~= seq![p] + qb);
                }
                assert(self.queue@ == spec_push_one(qb, p, cap));
                assert(spec_time_ordered(self.queue@)) by {
                    assert forall|a: int, b: int|
                        0 <= a <= b < self.queue@.len() implies (#[trigger] self.queue@[a]).0
                        >= (#[trigger] self.queue@[b]).0 by {
                        if a > 0 {
                            assert(self.queue@[a] == qb[a - 1]);
                            assert(self.queue@[b] == qb[b - 1]);
                        } else if b > 0 {
                            assert(self.queue@[b] == qb[b - 1]);
                            assert(qb[b - 1].0 <= qb[0].0);
                        }
                    }
                }
            }
            i += 1;
        }
        proof {
            assert(vs@.take(vs@.len() as int) =~= vs@);
            lemma_push_all_closed(q0, time, vs@, cap);
        }
        self.cache.clear();
    }

    /// Drops every sample and invalidates the caches.
    pub fn clear(&mut self)
        requires
            old(self).wf(),
        ensures
            final(self).wf(),
            final(self).cap() == old(self).cap(),
            final(self).tag() == old(self).tag(),
            final(self).colors() == old(self).colors(),
            final(self).entries() == Seq::<(u64, Vertex)>::empty(),
            final(self).cache_state() == spec_mutate(old(self).cache_state()),
    {
        self.queue.clear();
        self.cache.clear();
    }

    /// Age eviction: drops, from the back, every sample strictly older than
    /// `deadline`; the caches are invalidated only if something left.
    pub fn sync(&mut self, deadline: u64)
        requires
            old(self).wf(),
        ensures
            final(self).wf(),
            final(self).cap() == old(self).cap(),
            final(self).tag() == old(self).tag(),
            final(self).colors() == old(self).colors(),
            final(self).entries() == old(self).entries().take(
                old(self).entries().len() - spec_evict_count(old(self).entries(), deadline),
            ),
            final(self).cache_state() == if spec_evict_count(old(self).entries(), deadline) > 0 {
                spec_mutate(old(self).cache_state())
            } else {
                old(self).cache_state()
            },
    {
        let len = self.queue.len();
        let mut n: usize = len;
        while n > 0 && self.queue[n - 1].0 < deadline
            invariant
                n <= len,
                len == self.queue@.len(),
                forall|j: int| n <= j < len ==> (#[trigger] self.queue@[j]).0 < deadline,
            decreases n,
        {
            n -= 1;
        }
        proof {
            lemma_evict_count_of_fresh(self.queue@, deadline, n as int);
        }
        if n < len {
            self.queue.truncate(n);
            self.cache.clear();
            proof {
                assert(self.queue@ =~= old(self).entries().take(n as int));
            }
        } else {
            proof {
                assert(self.queue@ =~= old(self).entries().take(len as int));
            }
        }
    }

    /// A copy of the history, newest first.
    pub fn snapshot(&self) -> (r: Vec<(u64, Vertex)>)
        ensures
            r@ == self.entries(),
    {
        let mut r: Vec<(u64, Vertex)> = Vec::new();
        let mut i: usize = 0;
        while i < self.queue.len()
            invariant
                i <= self.queue@.len(),
                r@ == self.queue@.take(i as int),
            decreases self.queue@.len() - i,
        {
            r.push(self.queue[i]);
            proof {
                assert(r@ =~= self.queue@.take(i + 1));
            }
            i += 1;
        }
        proof {
            assert(self.queue@.take(self.queue@.len() as int) =~= self.queue@);
        }
        r
    }

    /// Drops only the render geometry.
    pub fn redraw(&mut self)
        requires
            old(self).wf(),
        ensures
            final(self).wf(),
            final(self).entries() == old(self).entries(),
            final(self).cap() == old(self).cap(),
            final(self).tag() == old(self).tag(),
            final(self).colors() == old(self).colors(),
            final(self).cache_state() == (CacheState {
                render_valid: false,
                ..old(self).cache_state()
            }),
    {
        self.cache.redraw();
    }

    /// How many front samples the bounds cache tracks: the focus window,
    /// capped by the history, with focus 0 meaning the whole history.
    pub open spec fn spec_window_len(&self) -> int {
        let f = self.cache_state().focus_len as int;
        if f == 0 || f > self.entries().len() {
            self.entries().len() as int
        } else {
            f
        }
    }

    /// The tracked window: the newest samples that count toward bounds.
    pub open spec fn window(&self) -> Seq<(u64, Vertex)> {
        self.entries().take(self.spec_window_len())
    }

    /// Number of samples in the tracked window.
    pub fn window_len(&self) -> (r: usize)
        ensures
            r == self.spec_window_len(),
    {
        let f = self.cache.focus_len();
        let n = self.queue.len();
        if f == 0 || f > n {
            n
        } else {
            f
        }
    }

    /// The samples of the tracked window, newest first.
    pub fn window_vertices(&self) -> (r: Vec<Vertex>)
        ensures
            r@.len() == self.spec_window_len(),
            forall|i: int| 0 <= i < r@.len() ==> r@[i] == self.window()[i].1,
    {
        let n = self.window_len();
        let mut r: Vec<Vertex> = Vec::new();
        let mut i: usize = 0;
        while i < n
            invariant
                i <= n,
                n == self.spec_window_len(),
                n <= self.queue@.len(),
                r@.len() == i,
                forall|j: int| 0 <= j < i ==> r@[j] == self.queue@[j].1,
            decreases n - i,
        {
            r.push(self.queue[i].1);
            i += 1;
        }
        r
    }

    /// Whether the bounds cache can answer without a scan.
    pub fn needs_scan(&self) -> (r: bool)
        ensures
            r == (self.cache_state().bound is Suspectable || self.cache_state().bound is Invalid),
    {
        self.cache.needs_scan()
    }

    /// The cached bounds, where no scan is needed.
    pub fn aabb_cached(&self) -> (r: Option<AABB>)
        requires
            self.cache_state().bound is Cached || self.cache_state().bound is CachedVoid,
        ensures
            self.cache_state().bound is Cached ==> r == Some(self.cache_state().bound->Cached_0),
            self.cache_state().bound is CachedVoid ==> r is None,
    {
        self.cache.cached_bounds()
    }

    /// Answers a bounds query that needed a scan. `boxes` holds one
    /// bounding box per sample of the tracked window, in window order; for
    /// an `Arrow` sample that box must be the sample's own point, while a
    /// `Circle` sample's box is the caller's radius expansion, which only
    /// the front end can compute.
    pub fn aabb_scanned(&mut self, boxes: &Vec<AABB>) -> (r: Option<AABB>)
        requires
            old(self).wf(),
            old(self).cache_state().bound is Suspectable || old(self).cache_state().bound
                is Invalid,
            boxes@.len() == old(self).spec_window_len(),
            forall|i: int|
                0 <= i < boxes@.len() && (#[trigger] old(self).window()[i]).1.shape == Shape::Arrow
                    ==> boxes@[i] == AABB::spec_from_point(
                    old(self).window()[i].1.x,
                    old(self).window()[i].1.y,
                ),
        ensures
            final(self).wf(),
            final(self).entries() == old(self).entries(),
            final(self).cap() == old(self).cap(),
            final(self).tag() == old(self).tag(),
            final(self).colors() == old(self).colors(),
            r == if boxes@.len() == 0 {
                None::<AABB>
            } else {
                Some(spec_scan_boxes(boxes@))
            },
            final(self).cache_state() == spec_apply_scan(old(self).cache_state(), r),
    {
        let scanned = AABB::foreach_boxes(boxes);
        self.cache.apply_scan(scanned)
    }

    /// Whether the render geometry held by the front end is current.
    pub fn render_valid(&self) -> (r: bool)
        ensures
            r == self.cache_state().render_valid,
    {
        self.cache.render_valid()
    }

    /// Records that the front end re-rendered this topic.
    pub fn mark_rendered(&mut self)
        requires
            old(self).wf(),
        ensures
            final(self).wf(),
            final(self).entries() == old(self).entries(),
            final(self).cap() == old(self).cap(),
            final(self).tag() == old(self).tag(),
            final(self).colors() == old(self).colors(),
            final(self).cache_state() == (CacheState {
                render_valid: true,
                ..old(self).cache_state()
            }),
    {
        self.cache.mark_rendered();
    }
}

} // verus!

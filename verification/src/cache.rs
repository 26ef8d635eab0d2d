//! The per-topic bounds and render cache: a four-state machine that
//! amortizes bounding-box recomputation and avoids needless re-rendering
//! when a rescan reproduces the same box.

use vstd::prelude::*;

use crate::aabb::eq_box;
use crate::aabb::AABB;

verus! {

/// What the cache knows of the tracked window's bounding box.
#[derive(Clone, Copy, PartialEq, Eq, Structural, Debug)]
pub enum Bound {
    /// The box is valid and equals the true bound of the tracked window.
    Cached(AABB),
    /// The tracked window is known to be empty: there is no box.
    CachedVoid,
    /// Data changed since the box was computed; the old value is kept as a
    /// hint until the next scan.
    Suspectable(AABB),
    /// Nothing is known.
    Invalid,
}

/// The cache's whole state, as contracts see it.
#[derive(Clone, Copy, PartialEq, Eq, Structural, Debug)]
pub struct CacheState {
    /// How many of the most recent samples count toward the box; 0 means
    /// the whole history.
    pub focus_len: usize,
    pub bound: Bound,
    /// Whether the render geometry held by the front end is still current.
    pub render_valid: bool,
}

/// The downgrade a data mutation or focus change applies to the bound: a
/// cached box becomes a hint, a cached emptiness is discarded.
pub open spec fn spec_rebound(b: Bound) -> Bound {
    match b {
        Bound::Cached(r) => Bound::Suspectable(r),
        Bound::CachedVoid => Bound::Invalid,
        _ => b,
    }
}

/// The transition a scan result applies to a state whose bound needs one.
/// A scan that reproduces the hinted box (as IEEE values) leaves the render
/// geometry valid; any other outcome invalidates it. Out of `Invalid`
/// there is no hint to compare against, so any outcome invalidates.
pub open spec fn spec_apply_scan(s: CacheState, scanned: Option<AABB>) -> CacheState {
    match s.bound {
        Bound::Suspectable(old_box) => match scanned {
            Some(new_box) => CacheState {
                bound: Bound::Cached(new_box),
                render_valid: s.render_valid && eq_box(new_box, old_box),
                ..s
            },
            None => CacheState { bound: Bound::CachedVoid, render_valid: false, ..s },
        },
        Bound::Invalid => match scanned {
            Some(new_box) => CacheState {
                bound: Bound::Cached(new_box),
                render_valid: false,
                ..s
            },
            None => CacheState { bound: Bound::CachedVoid, render_valid: false, ..s },
        },
        _ => s,
    }
}

/// A data mutation: the bound is downgraded and the render geometry is
/// dropped unconditionally.
pub open spec fn spec_mutate(s: CacheState) -> CacheState {
    CacheState { bound: spec_rebound(s.bound), render_valid: false, ..s }
}

/// The bounds and render cache of one topic.
pub struct TopicCache {
    focus_len: usize,
    bound: Bound,
    render_valid: bool,
}

impl View for TopicCache {
    type V = CacheState;

    closed spec fn view(&self) -> CacheState {
        CacheState { focus_len: self.focus_len, bound: self.bound, render_valid: self.render_valid }
    }
}

impl TopicCache {
    /// A fresh cache: unbounded focus, nothing known, nothing rendered.
    pub fn new() -> (r: TopicCache)
        ensures
            r@ == (CacheState { focus_len: 0, bound: Bound::Invalid, render_valid: false }),
    {
        TopicCache { focus_len: 0, bound: Bound::Invalid, render_valid: false }
    }

    /// The focus window size: how many of the most recent samples count
    /// toward the box, 0 standing for the whole history.
    pub fn focus_len(&self) -> (r: usize)
        ensures
            r == self@.focus_len,
    {
        self.focus_len
    }

    /// The bound needs a scan before it can answer.
    pub fn needs_scan(&self) -> (r: bool)
        ensures
            r == (self@.bound is Suspectable || self@.bound is Invalid),
    {
        match self.bound {
            Bound::Suspectable(_) => true,
            Bound::Invalid => true,
            _ => false,
        }
    }

    /// The cached answer, where no scan is needed.
    pub fn cached_bounds(&self) -> (r: Option<AABB>)
        requires
            self@.bound is Cached || self@.bound is CachedVoid,
        ensures
            self@.bound is Cached ==> r == Some(self@.bound->Cached_0),
            self@.bound is CachedVoid ==> r is None,
    {
        match self.bound {
            Bound::Cached(aabb) => Some(aabb),
            _ => None,
        }
    }

    /// Applies the outcome of a scan of the tracked window and returns the
    /// box the window has, if any.
    pub fn apply_scan(&mut self, scanned: Option<AABB>) -> (r: Option<AABB>)
        requires
            old(self)@.bound is Suspectable || old(self)@.bound is Invalid,
        ensures
            final(self)@ == spec_apply_scan(old(self)@, scanned),
            r == scanned,
    {
        match self.bound {
            Bound::Suspectable(old_box) => match scanned {
                Some(new_box) => {
                    self.bound = Bound::Cached(new_box);
                    if !new_box.same_box(&old_box) {
                        self.render_valid = false;
                    }
                    Some(new_box)
                },
                None => {
                    self.bound = Bound::CachedVoid;
                    self.render_valid = false;
                    None
                },
            },
            _ => match scanned {
                Some(new_box) => {
                    self.bound = Bound::Cached(new_box);
                    self.render_valid = false;
                    Some(new_box)
                },
                None => {
                    self.bound = Bound::CachedVoid;
                    self.render_valid = false;
                    None
                },
            },
        }
    }

    /// Changes the focus window; an actual change downgrades the bound,
    /// since the tracked window is now a different one.
    pub fn set_focus(&mut self, len: usize)
        ensures
            old(self)@.focus_len == len ==> final(self)@ == old(self)@,
            old(self)@.focus_len != len ==> final(self)@ == (CacheState {
                focus_len: len,
                bound: spec_rebound(old(self)@.bound),
                ..old(self)@
            }),
    {
        if self.focus_len != len {
            self.focus_len = len;
            self.rebound();
        }
    }

    /// The mutation hook: the sample sequence changed, so the bound is
    /// downgraded and the render geometry is dropped.
    pub fn clear(&mut self)
        ensures
            final(self)@ == spec_mutate(old(self)@),
    {
        self.rebound();
        self.redraw();
    }

    /// Drops only the render geometry (colors or visual config changed).
    pub fn redraw(&mut self)
        ensures
            final(self)@ == (CacheState { render_valid: false, ..old(self)@ }),
    {
        self.render_valid = false;
    }

    /// Whether the front end's render geometry is still current.
    pub fn render_valid(&self) -> (r: bool)
        ensures
            r == self@.render_valid,
    {
        self.render_valid
    }

    /// Records that the front end re-rendered from the current state.
    pub fn mark_rendered(&mut self)
        ensures
            final(self)@ == (CacheState { render_valid: true, ..old(self)@ }),
    {
        self.render_valid = true;
    }

    fn rebound(&mut self)
        ensures
            final(self)@ == (CacheState { bound: spec_rebound(old(self)@.bound), ..old(self)@ }),
    {
        match self.bound {
            Bound::Cached(r) => {
                self.bound = Bound::Suspectable(r);
            },
            Bound::CachedVoid => {
                self.bound = Bound::Invalid;
            },
            _ => {},
        }
    }
}

/// Round trip of the state machine: out of `Invalid`, a scan that finds a
/// box caches it and invalidates the render geometry once; a data mutation
/// downgrades the box to a hint and drops the geometry; after the front end
/// re-renders, a rescan that reproduces the same box (as IEEE values)
/// caches it again and leaves the re-rendered geometry valid.
pub proof fn lemma_cache_round_trip(s: CacheState, b: AABB, b2: AABB)
    requires
        s.bound is Invalid,
        eq_box(b2, b),
    ensures
        ({
            let s1 = spec_apply_scan(s, Some(b));
            &&& s1.bound == Bound::Cached(b)
            &&& !s1.render_valid
        }),
        ({
            let s1 = spec_apply_scan(s, Some(b));
            let s2 = spec_mutate(s1);
            &&& s2.bound == Bound::Suspectable(b)
            &&& !s2.render_valid
        }),
        ({
            let s1 = spec_apply_scan(s, Some(b));
            let s2 = spec_mutate(s1);
            let s3 = CacheState { render_valid: true, ..s2 };
            let s4 = spec_apply_scan(s3, Some(b2));
            &&& s4.bound == Bound::Cached(b2)
            &&& s4.render_valid
        }),
{
}

} // verus!

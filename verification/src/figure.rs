//! The scene: every topic, the named visibility layers, the named sync
//! groups whose members are evicted jointly, and the camera.

use vstd::prelude::*;

use crate::content::spec_evict_count;
use crate::cache::spec_mutate;
use crate::content::TopicContent;
use crate::scalar::is_finite_bits;
use crate::scalar::is_zero_bits;
use crate::scalar::lt_bits;
use crate::scalar::is_finite;
use crate::scalar::is_zero;
use crate::scalar::lt;

verus! {

/// The camera: viewport size, world-space center and scale, all binary32
/// bit patterns.
#[derive(Clone, Copy, PartialEq, Eq, Structural, Debug)]
pub struct Camera {
    pub size_w: u32,
    pub size_h: u32,
    pub center_x: u32,
    pub center_y: u32,
    pub scale: u32,
}

/// Bit pattern of the value 640.
pub const BITS_640: u32 = 0x4420_0000;

/// Bit pattern of the value 480.
pub const BITS_480: u32 = 0x43f0_0000;

/// Bit pattern of the value 1.
pub const BITS_ONE: u32 = 0x3f80_0000;

impl Camera {
    /// The starting camera: a 640 by 480 viewport looking at the origin at
    /// scale 1.
    pub fn start() -> (r: Camera)
        ensures
            r == Self::spec_start(),
    {
        Camera {
            size_w: BITS_640,
            size_h: BITS_480,
            center_x: 0,
            center_y: 0,
            scale: BITS_ONE,
        }
    }

    /// The starting camera.
    pub open spec fn spec_start() -> Camera {
        Camera { size_w: BITS_640, size_h: BITS_480, center_x: 0, center_y: 0, scale: BITS_ONE }
    }
}

/// A named topic and its state.
pub struct Topic {
    pub name: Vec<u8>,
    pub content: TopicContent,
}

/// A named group of topics whose histories are evicted together, under a
/// shared age limit in nanoseconds (0 meaning no age limit).
pub struct SyncGroup {
    pub name: Vec<u8>,
    pub members: Vec<Vec<u8>>,
    pub life_time: u64,
}


/// Relates the two views of a list of byte strings.
pub proof fn lemma_deep_view_bytes(v: &Vec<Vec<u8>>)
    ensures
        v.deep_view().len() == v@.len(),
        forall|j: int| 0 <= j < v@.len() ==> v.deep_view()[j] == (#[trigger] v@[j])@,
{
    assert forall|j: int| 0 <= j < v@.len() implies v.deep_view()[j] == (#[trigger] v@[j])@ by {
        assert(v@[j].deep_view() =~= v@[j]@);
    }
}

/// A topic is visible iff its layer tag is empty or named in the visible
/// set.
pub open spec fn spec_visible(set: Seq<Seq<u8>>, layer: Seq<u8>) -> bool {
    layer.len() == 0 || set.contains(layer)
}

/// Whether a topic with the given layer tag is visible under the given set
/// of visible layer names.
pub fn check_visible(set: &Vec<Vec<u8>>, layer: &Vec<u8>) -> (r: bool)
    ensures
        r == spec_visible(set.deep_view(), layer@),
{
    if layer.len() == 0 {
        return true;
    }
    if check_visible_member(set, layer) {
        proof {
            lemma_deep_view_bytes(set);
        }
        true
    } else {
        false
    }
}

/// Byte-string equality.
pub fn bytes_eq(a: &Vec<u8>, b: &Vec<u8>) -> (r: bool)
    ensures
        r == (a@ == b@),
{
    if a.len() != b.len() {
        return false;
    }
    let mut i: usize = 0;
    while i < a.len()
        invariant
            a@.len() == b@.len(),
            i <= a@.len(),
            forall|j: int| 0 <= j < i ==> a@[j] == b@[j],
        decreases a@.len() - i,
    {
        if a[i] != b[i] {
            return false;
        }
        i += 1;
    }
    proof {
        assert(a@ =~= b@);
    }
    true
}

/// First index whose topic carries `name`.
pub open spec fn spec_find_topic(ts: Seq<Topic>, name: Seq<u8>) -> Option<int>
    decreases ts.len(),
{
    if ts.len() == 0 {
        None
    } else if ts[0].name@ == name {
        Some(0)
    } else {
        match spec_find_topic(ts.skip(1), name) {
            Some(i) => Some(i + 1),
            None => None,
        }
    }
}

/// What `spec_find_topic` returns: the first match, or no match at all.
pub proof fn lemma_find_topic(ts: Seq<Topic>, name: Seq<u8>)
    ensures
        match spec_find_topic(ts, name) {
            Some(i) => 0 <= i < ts.len() && ts[i].name@ == name && (forall|j: int|
                0 <= j < i ==> (#[trigger] ts[j]).name@ != name),
            None => forall|j: int| 0 <= j < ts.len() ==> (#[trigger] ts[j]).name@ != name,
        },
    decreases ts.len(),
{
    if ts.len() > 0 && ts[0].name@ != name {
        lemma_find_topic(ts.skip(1), name);
        match spec_find_topic(ts.skip(1), name) {
            Some(i) => {
                assert(ts.skip(1)[i] == ts[i + 1]);
                assert forall|j: int| 0 <= j < i + 1 implies (#[trigger] ts[j]).name@ != name by {
                    if j > 0 {
                        assert(ts.skip(1)[j - 1] == ts[j]);
                    }
                }
            },
            None => {
                assert forall|j: int|
                    0 <= j < ts.len() implies (#[trigger] ts[j]).name@ != name by {
                    if j > 0 {
                        assert(ts.skip(1)[j - 1] == ts[j]);
                    }
                }
            },
        }
    }
}

/// The whole scene.
pub struct Figure {
    /// Recompute the camera from the visible topics' bounds every tick.
    pub auto_view: bool,
    /// Log tick timing (a front-end concern; carried, never read here).
    pub print_time: bool,
    /// The camera.
    pub view: Camera,
    /// Every topic ever referenced, in order of first reference.
    pub topics: Vec<Topic>,
    /// Names of the visible layers.
    pub visible_layers: Vec<Vec<u8>>,
    /// The sync groups.
    pub sync_sets: Vec<SyncGroup>,
}

impl Figure {
    /// Topic names are unique; every topic is well formed; layer names are
    /// unique; group names are unique; and no topic is named in two groups
    /// or twice in one.
    pub open spec fn wf(&self) -> bool {
        &&& forall|i: int, j: int|
            0 <= i < j < self.topics@.len() ==> (#[trigger] self.topics@[i]).name@ != (
            #[trigger] self.topics@[j]).name@
        &&& forall|i: int| 0 <= i < self.topics@.len() ==> (#[trigger] self.topics@[i]).content.wf()
        &&& forall|i: int, j: int|
            0 <= i < j < self.visible_layers@.len() ==> (#[trigger] self.visible_layers@[i])@ != (
            #[trigger] self.visible_layers@[j])@
        &&& forall|i: int, j: int|
            0 <= i < j < self.sync_sets@.len() ==> (#[trigger] self.sync_sets@[i]).name@ != (
            #[trigger] self.sync_sets@[j]).name@
        &&& forall|gi: int, a: int, b: int|
            0 <= gi < self.sync_sets@.len() && 0 <= a < b
                < (#[trigger] self.sync_sets@[gi]).members@.len() ==> (
            #[trigger] self.sync_sets@[gi].members@[a])@ != (
            #[trigger] self.sync_sets@[gi].members@[b])@
        &&& forall|g1: int, g2: int, a: int, b: int|
            0 <= g1 < g2 < self.sync_sets@.len() && 0 <= a
                < (#[trigger] self.sync_sets@[g1]).members@.len() && 0 <= b
                < (#[trigger] self.sync_sets@[g2]).members@.len() ==> (
            #[trigger] self.sync_sets@[g1].members@[a])@ != (
            #[trigger] self.sync_sets@[g2].members@[b])@
    }

    /// A fresh scene: no topics, no visible layers, no groups, the starting
    /// camera, manual view.
    pub fn new() -> (r: Figure)
        ensures
            r.wf(),
            !r.auto_view,
            r.print_time,
            r.view == Camera::spec_start(),
            r.topics@.len() == 0,
            r.visible_layers@.len() == 0,
            r.sync_sets@.len() == 0,
    {
        Figure {
            auto_view: false,
            print_time: true,
            view: Camera::start(),
            topics: Vec::new(),
            visible_layers: Vec::new(),
            sync_sets: Vec::new(),
        }
    }

    /// First index of the topic carrying `name`, if any.
    pub fn find_topic(&self, name: &Vec<u8>) -> (r: Option<usize>)
        ensures
            r is Some ==> spec_find_topic(self.topics@, name@) == Some(r->Some_0 as int)
                && r->Some_0 < self.topics@.len() && self.topics@[
                r->Some_0 as int
            ].name@ == name@,
            r is None ==> spec_find_topic(self.topics@, name@) is None,
    {
        proof {
            lemma_find_topic(self.topics@, name@);
        }
        let mut i: usize = 0;
        while i < self.topics.len()
            invariant
                i <= self.topics@.len(),
                forall|j: int| 0 <= j < i ==> (#[trigger] self.topics@[j]).name@ != name@,
            decreases self.topics@.len() - i,
        {
            if bytes_eq(&self.topics[i].name, name) {
                proof {
                    lemma_find_topic(self.topics@, name@);
                    let k = spec_find_topic(self.topics@, name@);
                    assert(k == Some(i as int));
                }
                return Some(i);
            }
            i += 1;
        }
        None
    }

    /// The index of the topic carrying `name`, created empty on first
    /// reference.
    pub fn put_topic(&mut self, name: &Vec<u8>) -> (i: usize)
        requires
            old(self).wf(),
        ensures
            final(self).wf(),
            i < final(self).topics@.len(),
            final(self).topics@[i as int].name@ == name@,
            match spec_find_topic(old(self).topics@, name@) {
                Some(j) => i == j && final(self).topics@ == old(self).topics@,
                None => {
                    &&& i == old(self).topics@.len()
                    &&& final(self).topics@.len() == old(self).topics@.len() + 1
                    &&& final(self).topics@.take(i as int) == old(self).topics@
                    &&& final(self).topics@[i as int].content.entries() == Seq::<
                        (u64, crate::vertex::Vertex),
                    >::empty()
                    &&& final(self).topics@[i as int].content.wf()
                    &&& final(self).topics@[i as int].content.cap()
                        == crate::content::DEFAULT_CAPACITY
                    &&& final(self).topics@[i as int].content.tag() == Seq::<u8>::empty()
                    &&& final(self).topics@[i as int].content.colors() == Map::<u8, u32>::empty()
                    &&& final(self).topics@[i as int].content.cache_state() == (crate::cache::CacheState {
                        focus_len: 0,
                        bound: crate::cache::Bound::Invalid,
                        render_valid: false,
                    })
                },
            },
            final(self).auto_view == old(self).auto_view,
            final(self).print_time == old(self).print_time,
            final(self).view == old(self).view,
            final(self).visible_layers@ == old(self).visible_layers@,
            final(self).sync_sets@ == old(self).sync_sets@,
    {
        proof {
            lemma_find_topic(self.topics@, name@);
        }
        match self.find_topic(name) {
            Some(i) => i,
            None => {
                let i = self.topics.len();
                self.topics.push(Topic { name: name.clone(), content: TopicContent::new() });
                proof {
                    assert(self.topics@.take(i as int) =~= old(self).topics@);
                    assert(self.topics@[i as int].name@ == name@);
                }
                i
            },
        }
    }

    /// Shows or hides a layer by name.
    pub fn set_visible(&mut self, layer: &Vec<u8>, visible: bool)
        requires
            old(self).wf(),
        ensures
            final(self).wf(),
            final(self).topics@ == old(self).topics@,
            final(self).sync_sets@ == old(self).sync_sets@,
            final(self).auto_view == old(self).auto_view,
            final(self).print_time == old(self).print_time,
            final(self).view == old(self).view,
            visible ==> final(self).visible_layers.deep_view() == if old(
                self,
            ).visible_layers.deep_view().contains(layer@) {
                old(self).visible_layers.deep_view()
            } else {
                old(self).visible_layers.deep_view().push(layer@)
            },
            !visible ==> final(self).visible_layers.deep_view() == old(
                self,
            ).visible_layers.deep_view().remove_value(layer@),
    {
        let ghost dv0 = self.visible_layers.deep_view();
        if visible {
            if !check_visible_member(&self.visible_layers, layer) {
                self.visible_layers.push(layer.clone());
                proof {
                    lemma_deep_view_bytes(&old(self).visible_layers);
                    lemma_deep_view_bytes(&self.visible_layers);
                    assert(self.visible_layers.deep_view() =~= dv0.push(layer@));
                    let lv = self.visible_layers@;
                    assert forall|i: int, j: int|
                        0 <= i < j < lv.len() implies (#[trigger] lv[i])@ != (
                    #[trigger] lv[j])@ by {
                        if j == lv.len() - 1 {
                            assert(dv0[i] == lv[i]@);
                            if lv[i]@ == lv[j]@ {
                                assert(dv0.contains(layer@));
                            }
                        }
                    }
                }
            } else {
                proof {
                    assert(dv0.contains(layer@));
                }
            }
        } else {
            let mut i: usize = 0;
            let n = self.visible_layers.len();
            while i < n
                invariant
                    old(self).wf(),
                    !visible,
                    i <= n,
                    n == self.visible_layers@.len(),
                    *self == *old(self),
                    dv0 == old(self).visible_layers.deep_view(),
                    forall|j: int| 0 <= j < i ==> (#[trigger] self.visible_layers@[j])@ != layer@,
                decreases n - i,
            {
                if bytes_eq(&self.visible_layers[i], layer) {
                    let ghost l0 = self.visible_layers@;
                    self.visible_layers.remove(i);
                    proof {
                        lemma_deep_view_bytes(&old(self).visible_layers);
                        lemma_deep_view_bytes(&self.visible_layers);
                        assert(self.visible_layers.deep_view() =~= dv0.remove_value(layer@)) by {
                            assert(dv0.index_of_first(layer@) == Some(i as int)) by {
                                dv0.index_of_first_ensures(layer@);
                                assert(dv0.contains(layer@)) by {
                                    assert(dv0[i as int] == layer@);
                                }
                            }
                            assert(self.visible_layers.deep_view() =~= dv0.remove(i as int));
                        }
                        let lv = self.visible_layers@;
                        assert forall|a: int, b: int|
                            0 <= a < b < lv.len() implies (#[trigger] lv[a])@ != (
                        #[trigger] lv[b])@ by {
                            let a0: int = if a < i { a } else { a + 1 };
                            let b0: int = if b < i { b } else { b + 1 };
                            assert(lv[a] == l0[a0]);
                            assert(lv[b] == l0[b0]);
                        }
                    }
                    return;
                }
                i += 1;
            }
            proof {
                lemma_deep_view_bytes(&self.visible_layers);
                assert(!dv0.contains(layer@)) by {
                    if dv0.contains(layer@) {
                        let j = choose|j: int| 0 <= j < dv0.len() && dv0[j] == layer@;
                        assert((self.visible_layers@[j])@ == layer@);
                    }
                }
                assert(dv0.index_of_first(layer@) is None) by {
                    dv0.index_of_first_ensures(layer@);
                }
                assert(final(self).visible_layers.deep_view() =~= dv0.remove_value(layer@));
            }
        }
    }
}

/// Whether `layer` itself is named in the set (regardless of emptiness).
fn check_visible_member(set: &Vec<Vec<u8>>, layer: &Vec<u8>) -> (r: bool)
    ensures
        r == set.deep_view().contains(layer@),
{
    proof {
        lemma_deep_view_bytes(set);
    }
    let mut i: usize = 0;
    while i < set.len()
        invariant
            i <= set@.len(),
            forall|j: int| 0 <= j < i ==> (#[trigger] set@[j])@ != layer@,
        decreases set@.len() - i,
    {
        if bytes_eq(&set[i], layer) {
            proof {
                lemma_deep_view_bytes(set);
                assert(set.deep_view()[i as int] == layer@);
            }
            return true;
        }
        i += 1;
    }
    proof {
        lemma_deep_view_bytes(set);
        if set.deep_view().contains(layer@) {
            let j = choose|j: int| 0 <= j < set.deep_view().len() && set.deep_view()[j] == layer@;
            assert((set@[j])@ == layer@);
        }
    }
    false
}


/// First index whose group carries `name`.
pub open spec fn spec_find_group(gs: Seq<SyncGroup>, name: Seq<u8>) -> Option<int>
    decreases gs.len(),
{
    if gs.len() == 0 {
        None
    } else if gs[0].name@ == name {
        Some(0)
    } else {
        match spec_find_group(gs.skip(1), name) {
            Some(i) => Some(i + 1),
            None => None,
        }
    }
}

/// What `spec_find_group` returns: the first match, or no match at all.
pub proof fn lemma_find_group(gs: Seq<SyncGroup>, name: Seq<u8>)
    ensures
        match spec_find_group(gs, name) {
            Some(i) => 0 <= i < gs.len() && gs[i].name@ == name && (forall|j: int|
                0 <= j < i ==> (#[trigger] gs[j]).name@ != name),
            None => forall|j: int| 0 <= j < gs.len() ==> (#[trigger] gs[j]).name@ != name,
        },
    decreases gs.len(),
{
    if gs.len() > 0 && gs[0].name@ != name {
        lemma_find_group(gs.skip(1), name);
        match spec_find_group(gs.skip(1), name) {
            Some(i) => {
                assert(gs.skip(1)[i] == gs[i + 1]);
                assert forall|j: int| 0 <= j < i + 1 implies (#[trigger] gs[j]).name@ != name by {
                    if j > 0 {
                        assert(gs.skip(1)[j - 1] == gs[j]);
                    }
                }
            },
            None => {
                assert forall|j: int|
                    0 <= j < gs.len() implies (#[trigger] gs[j]).name@ != name by {
                    if j > 0 {
                        assert(gs.skip(1)[j - 1] == gs[j]);
                    }
                }
            },
        }
    }
}

impl Figure {
    /// First index of the group carrying `name`, if any.
    pub fn find_group(&self, name: &Vec<u8>) -> (r: Option<usize>)
        ensures
            r is Some ==> spec_find_group(self.sync_sets@, name@) == Some(r->Some_0 as int)
                && r->Some_0 < self.sync_sets@.len() && self.sync_sets@[
                r->Some_0 as int
            ].name@ == name@,
            r is None ==> spec_find_group(self.sync_sets@, name@) is None,
    {
        proof {
            lemma_find_group(self.sync_sets@, name@);
        }
        let mut i: usize = 0;
        while i < self.sync_sets.len()
            invariant
                i <= self.sync_sets@.len(),
                forall|j: int| 0 <= j < i ==> (#[trigger] self.sync_sets@[j]).name@ != name@,
            decreases self.sync_sets@.len() - i,
        {
            if bytes_eq(&self.sync_sets[i].name, name) {
                proof {
                    lemma_find_group(self.sync_sets@, name@);
                }
                return Some(i);
            }
            i += 1;
        }
        None
    }

    /// Sets the age limit of a sync group, creating the group on first
    /// reference.
    pub fn set_life_time(&mut self, sync_set: &Vec<u8>, life_time: u64)
        requires
            old(self).wf(),
        ensures
            final(self).wf(),
            final(self).topics@ == old(self).topics@,
            final(self).visible_layers@ == old(self).visible_layers@,
            final(self).auto_view == old(self).auto_view,
            final(self).print_time == old(self).print_time,
            final(self).view == old(self).view,
            match spec_find_group(old(self).sync_sets@, sync_set@) {
                Some(i) => final(self).sync_sets@ == old(self).sync_sets@.update(
                    i,
                    SyncGroup {
                        name: old(self).sync_sets@[i].name,
                        members: old(self).sync_sets@[i].members,
                        life_time,
                    },
                ),
                None => {
                    &&& final(self).sync_sets@.len() == old(self).sync_sets@.len() + 1
                    &&& final(self).sync_sets@.take(old(self).sync_sets@.len() as int) == old(
                        self,
                    ).sync_sets@
                    &&& final(self).sync_sets@.last().name@ == sync_set@
                    &&& final(self).sync_sets@.last().members@.len() == 0
                    &&& final(self).sync_sets@.last().life_time == life_time
                },
            },
    {
        proof {
            lemma_find_group(self.sync_sets@, sync_set@);
        }
        match self.find_group(sync_set) {
            Some(i) => {
                self.sync_sets[i].life_time = life_time;
                proof {
                    assert(self.sync_sets@ == old(self).sync_sets@.update(
                        i as int,
                        self.sync_sets@[i as int],
                    ));
                    assert forall|g1: int, g2: int, a: int, b: int|
                        0 <= g1 < g2 < self.sync_sets@.len() && 0 <= a
                            < (#[trigger] self.sync_sets@[g1]).members@.len() && 0 <= b
                            < (#[trigger] self.sync_sets@[g2]).members@.len() implies (
                    #[trigger] self.sync_sets@[g1].members@[a])@ != (
                    #[trigger] self.sync_sets@[g2].members@[b])@ by {
                        assert(self.sync_sets@[g1].members == old(self).sync_sets@[g1].members);
                        assert(self.sync_sets@[g2].members == old(self).sync_sets@[g2].members);
                    }
                }
            },
            None => {
                let g = SyncGroup { name: sync_set.clone(), members: Vec::new(), life_time };
                self.sync_sets.push(g);
                proof {
                    assert(self.sync_sets@.take(old(self).sync_sets@.len() as int) =~= old(
                        self,
                    ).sync_sets@);
                }
            },
        }
    }

    /// Reassigns a topic's sync group: the topic leaves every group, and
    /// joins the named one (created on demand) unless the name is the empty
    /// sentinel, which just removes the membership.
    #[verifier::rlimit(30)]
    pub fn update_sync_set(&mut self, sync_set: &Vec<u8>, topic: &Vec<u8>)
        requires
            old(self).wf(),
        ensures
            final(self).wf(),
            final(self).topics@ == old(self).topics@,
            final(self).visible_layers@ == old(self).visible_layers@,
            final(self).auto_view == old(self).auto_view,
            final(self).print_time == old(self).print_time,
            final(self).view == old(self).view,
            final(self).sync_sets@.len() >= old(self).sync_sets@.len(),
            forall|j: int|
                0 <= j < old(self).sync_sets@.len() ==> (#[trigger] final(self).sync_sets@[j]).name == old(self).sync_sets@[j].name && final(self).sync_sets@[j].life_time == old(self).sync_sets@[j].life_time,
            forall|j: int|
                0 <= j < old(self).sync_sets@.len() && !(sync_set@.len() > 0 && old(self).sync_sets@[j].name@ == sync_set@) ==> (#[trigger] final(self).sync_sets@[j]).members.deep_view() == old(self).sync_sets@[j].members.deep_view().remove_value(topic@),
            sync_set@.len() > 0 ==> match spec_find_group(old(self).sync_sets@, sync_set@) {
                Some(ti) => final(self).sync_sets@.len() == old(self).sync_sets@.len()
                    && final(self).sync_sets@[ti].members.deep_view() == old(self).sync_sets@[ti].members.deep_view().remove_value(topic@).push(topic@),
                None => final(self).sync_sets@.len() == old(self).sync_sets@.len() + 1
                    && final(self).sync_sets@.last().name@ == sync_set@
                    && final(self).sync_sets@.last().life_time == 0
                    && final(self).sync_sets@.last().members.deep_view() == seq![topic@],
            },
            sync_set@.len() == 0 ==> final(self).sync_sets@.len() == old(self).sync_sets@.len(),
    {
        let n0 = self.sync_sets.len();
        let mut gi: usize = 0;
        while gi < n0
            invariant
                old(self).wf(),
                gi <= n0,
                n0 == self.sync_sets@.len(),
                n0 == old(self).sync_sets@.len(),
                self.topics@ == old(self).topics@,
                self.visible_layers@ == old(self).visible_layers@,
                self.auto_view == old(self).auto_view,
                self.print_time == old(self).print_time,
                self.view == old(self).view,
                forall|j: int| gi <= j < n0 ==> #[trigger] self.sync_sets@[j] == old(self).sync_sets@[j],
                forall|j: int|
                    0 <= j < gi ==> (#[trigger] self.sync_sets@[j]).name == old(self).sync_sets@[j].name && self.sync_sets@[j].life_time == old(self).sync_sets@[j].life_time,
                forall|j: int|
                    0 <= j < gi ==> (#[trigger] self.sync_sets@[j]).members.deep_view() == old(self).sync_sets@[j].members.deep_view().remove_value(topic@),
                forall|j: int|
                    0 <= j < gi ==> !(#[trigger] self.sync_sets@[j]).members.deep_view().contains(topic@),
                forall|j: int, m: int|
                    0 <= j < gi && 0 <= m < (#[trigger] self.sync_sets@[j]).members@.len() ==> old(self).sync_sets@[j].members.deep_view().contains((#[trigger] self.sync_sets@[j].members@[m])@),
                forall|j: int, a: int, b: int|
                    0 <= j < gi && 0 <= a < b < (#[trigger] self.sync_sets@[j]).members@.len() ==> (#[trigger] self.sync_sets@[j].members@[a])@ != (#[trigger] self.sync_sets@[j].members@[b])@,
            decreases n0 - gi,
        {
            let ghost pre = self.sync_sets@;
            proof {
                assert(pre[gi as int] == old(self).sync_sets@[gi as int]);
                let om = old(self).sync_sets@[gi as int];
                assert(om == pre[gi as int]);
                assert forall|a: int, b: int|
                    0 <= a < b < pre[gi as int].members@.len() implies (
                #[trigger] pre[gi as int].members@[a])@ != (
                #[trigger] pre[gi as int].members@[b])@ by {
                    assert(0 <= gi < old(self).sync_sets@.len());
                    assert(b < (old(self).sync_sets@[gi as int]).members@.len());
                    assert((old(self).sync_sets@[gi as int].members@[a])@ != (old(self).sync_sets@[gi as int].members@[b])@);
                }
            }
            remove_name(&mut self.sync_sets[gi].members, topic);
            proof {
                assert(self.sync_sets@[gi as int].name == pre[gi as int].name);
                assert(self.sync_sets@[gi as int].life_time == pre[gi as int].life_time);
                assert forall|j: int| 0 <= j < n0 && j != gi implies #[trigger] self.sync_sets@[j]
                    == pre[j] by {}
            }
            gi += 1;
        }
        let ghost mid = self.sync_sets@;
        if sync_set.len() > 0 {
            proof {
                lemma_find_group(old(self).sync_sets@, sync_set@);
            }
            let ti = match self.find_group(sync_set) {
                Some(i) => {
                    proof {
                        lemma_find_group(mid, sync_set@);
                        assert(spec_find_group(old(self).sync_sets@, sync_set@) == Some(i as int))
                            by {
                            match spec_find_group(old(self).sync_sets@, sync_set@) {
                                Some(k) => {
                                    assert(old(self).sync_sets@[k].name == mid[k].name);
                                    if k < i as int {
                                        assert(mid[k].name@ != sync_set@);
                                    }
                                    if (i as int) < k {
                                        assert(old(self).sync_sets@[i as int].name@ != sync_set@);
                                    }
                                },
                                None => {
                                    assert(old(self).sync_sets@[i as int].name@ != sync_set@);
                                },
                            }
                        }
                    }
                    i
                },
                None => {
                    proof {
                        lemma_find_group(mid, sync_set@);
                        assert(spec_find_group(old(self).sync_sets@, sync_set@) is None) by {
                            match spec_find_group(old(self).sync_sets@, sync_set@) {
                                Some(k) => {
                                    assert(mid[k].name@ == sync_set@);
                                },
                                None => {},
                            }
                        }
                    }
                    let i = self.sync_sets.len();
                    let g = SyncGroup {
                        name: sync_set.clone(),
                        members: Vec::new(),
                        life_time: 0,
                    };
                    self.sync_sets.push(g);
                    proof {
                        assert forall|j: int| 0 <= j < n0 implies #[trigger] self.sync_sets@[j]
                            == mid[j] by {}
                    }
                    i
                },
            };
            let ghost mid2 = self.sync_sets@;
            self.sync_sets[ti].members.push(topic.clone());
            proof {
                let fm = self.sync_sets@[ti as int].members;
                assert(fm@.len() == mid2[ti as int].members@.len() + 1);
                assert(fm@.last()@ == topic@);
                assert(forall|m: int|
                    0 <= m < mid2[ti as int].members@.len() ==> #[trigger] fm@[m] == mid2[
                        ti as int
                    ].members@[m]);
                assert forall|j: int|
                    0 <= j < self.sync_sets@.len() && j != ti implies #[trigger] self.sync_sets@[j]
                    == mid2[j] by {}
                lemma_deep_view_bytes(&fm);
                lemma_deep_view_bytes(&mid2[ti as int].members);
                assert(fm.deep_view() =~= mid2[ti as int].members.deep_view().push(topic@));
                if ti < n0 {
                    assert(mid2[ti as int].members.deep_view() == old(self).sync_sets@[
                        ti as int
                    ].members.deep_view().remove_value(topic@));
                } else {
                    assert(mid2[ti as int].members.deep_view() =~= Seq::<Seq<u8>>::empty());
                    assert(fm.deep_view() =~= seq![topic@]);
                }
                lemma_figure_wf_after_reassign(old(self).sync_sets@, mid2, self.sync_sets@, ti as int, topic@, sync_set@);
                assert(self.wf()) by {
                    assert(forall|i: int|
                        0 <= i < self.topics@.len() ==> (#[trigger] self.topics@[i]).content.wf());
                }
            }
        } else {
            proof {
                assert(self.wf()) by {
                    assert forall|g1: int, g2: int, a: int, b: int|
                        0 <= g1 < g2 < self.sync_sets@.len() && 0 <= a
                            < (#[trigger] self.sync_sets@[g1]).members@.len() && 0 <= b
                            < (#[trigger] self.sync_sets@[g2]).members@.len() implies (
                    #[trigger] self.sync_sets@[g1].members@[a])@ != (
                    #[trigger] self.sync_sets@[g2].members@[b])@ by {
                        lemma_member_distinct_pair(old(self).sync_sets@, self.sync_sets@, g1, g2, a, b);
                    }
                }
            }
        }
    }
}

/// Well-formedness of the group list after the reassignment: every group
/// lost the topic, then exactly the target group gained it at the end.
proof fn lemma_figure_wf_after_reassign(
    olds: Seq<SyncGroup>,
    mids: Seq<SyncGroup>,
    finals: Seq<SyncGroup>,
    ti: int,
    topic: Seq<u8>,
    sync_set: Seq<u8>,
)
    requires
        mids.len() == finals.len(),
        0 <= ti < finals.len(),
        finals[ti].name == mids[ti].name,
        olds.len() <= mids.len() <= olds.len() + 1,
        forall|j: int| 0 <= j < finals.len() && j != ti ==> #[trigger] finals[j] == mids[j],
        finals[ti].members@.len() == mids[ti].members@.len() + 1,
        forall|m: int|
            0 <= m < mids[ti].members@.len() ==> #[trigger] finals[ti].members@[m]
                == mids[ti].members@[m],
        (finals[ti].members@.last())@ == topic,
        forall|j: int| 0 <= j < mids.len() ==> !(#[trigger] mids[j]).members.deep_view().contains(topic),
        forall|j: int, m: int|
            0 <= j < olds.len() && 0 <= m < (#[trigger] mids[j]).members@.len() ==> olds[j].members.deep_view().contains((#[trigger] mids[j].members@[m])@),
        mids.len() == olds.len() + 1 ==> mids.last().members@.len() == 0,
        forall|j: int, a: int, b: int|
            0 <= j < mids.len() && 0 <= a < b < (#[trigger] mids[j]).members@.len() ==> (#[trigger] mids[j].members@[a])@ != (#[trigger] mids[j].members@[b])@,
        forall|ga: int, gb: int, x: int, y: int|
            0 <= ga < gb < olds.len() && 0 <= x < (#[trigger] olds[ga]).members@.len() && 0 <= y
                < (#[trigger] olds[gb]).members@.len() ==> (#[trigger] olds[ga].members@[x])@ != (
            #[trigger] olds[gb].members@[y])@,
        forall|i: int, j: int|
            0 <= i < j < mids.len() ==> (#[trigger] mids[i]).name@ != (#[trigger] mids[j]).name@,
    ensures
        forall|i: int, j: int|
            0 <= i < j < finals.len() ==> (#[trigger] finals[i]).name@ != (
            #[trigger] finals[j]).name@,
        forall|g: int, a: int, b: int|
            0 <= g < finals.len() && 0 <= a < b < (#[trigger] finals[g]).members@.len() ==> (#[trigger] finals[g].members@[a])@ != (#[trigger] finals[g].members@[b])@,
        forall|g1: int, g2: int, a: int, b: int|
            0 <= g1 < g2 < finals.len() && 0 <= a < (#[trigger] finals[g1]).members@.len() && 0 <= b
                < (#[trigger] finals[g2]).members@.len() ==> (#[trigger] finals[g1].members@[a])@
                != (#[trigger] finals[g2].members@[b])@,
{
    assert(finals[ti].name@ == mids[ti].name@);
    assert forall|i: int, j: int|
        0 <= i < j < finals.len() implies (#[trigger] finals[i]).name@ != (
    #[trigger] finals[j]).name@ by {
        assert(finals[i].name@ == mids[i].name@);
        assert(finals[j].name@ == mids[j].name@);
    }
    assert forall|g: int, a: int, b: int|
        0 <= g < finals.len() && 0 <= a < b < (#[trigger] finals[g]).members@.len() implies (
    #[trigger] finals[g].members@[a])@ != (#[trigger] finals[g].members@[b])@ by {
        if g != ti {
            assert(finals[g] == mids[g]);
        } else {
            if b == finals[ti].members@.len() - 1 {
                assert(finals[ti].members@[a] == mids[ti].members@[a]);
                if (finals[ti].members@[a])@ == topic {
                    lemma_deep_view_bytes(&mids[ti].members);
                    assert(mids[ti].members.deep_view()[a] == topic);
                    assert(mids[ti].members.deep_view().contains(topic));
                }
            } else {
                assert(finals[ti].members@[a] == mids[ti].members@[a]);
                assert(finals[ti].members@[b] == mids[ti].members@[b]);
            }
        }
    }
    assert forall|g1: int, g2: int, a: int, b: int|
        0 <= g1 < g2 < finals.len() && 0 <= a < (#[trigger] finals[g1]).members@.len() && 0 <= b
            < (#[trigger] finals[g2]).members@.len() implies (#[trigger] finals[g1].members@[a])@
        != (#[trigger] finals[g2].members@[b])@ by {
        let va = (finals[g1].members@[a])@;
        let vb = (finals[g2].members@[b])@;
        let a_is_new = g1 == ti && a == finals[ti].members@.len() - 1;
        let b_is_new = g2 == ti && b == finals[ti].members@.len() - 1;
        if a_is_new {
            assert(va == topic);
            assert(finals[g2] == mids[g2]);
            if vb == topic {
                lemma_deep_view_bytes(&mids[g2].members);
                assert(mids[g2].members.deep_view()[b] == topic);
                assert(mids[g2].members.deep_view().contains(topic));
            }
        } else if b_is_new {
            assert(vb == topic);
            if g1 != ti {
                assert(finals[g1] == mids[g1]);
            } else {
                assert(finals[ti].members@[a] == mids[ti].members@[a]);
            }
            if va == topic {
                lemma_deep_view_bytes(&mids[g1].members);
                assert(mids[g1].members.deep_view()[a] == topic);
                assert(mids[g1].members.deep_view().contains(topic));
            }
        } else {
            let ma = if g1 == ti {
                mids[ti].members@[a]
            } else {
                mids[g1].members@[a]
            };
            let mb = if g2 == ti {
                mids[ti].members@[b]
            } else {
                mids[g2].members@[b]
            };
            assert(finals[g1].members@[a] == ma);
            assert(finals[g2].members@[b] == mb);
            if g1 < olds.len() && g2 < olds.len() {
                lemma_member_distinct_pair(olds, mids, g1, g2, a, b);
            } else {
                assert(g2 == mids.len() - 1 && mids.len() == olds.len() + 1);
                assert(mids[g2].members@.len() == 0);
            }
        }
    }
}

/// Distinctness across two processed groups, lifted from the old state.
proof fn lemma_member_distinct_pair(
    olds: Seq<SyncGroup>,
    mids: Seq<SyncGroup>,
    g1: int,
    g2: int,
    a: int,
    b: int,
)
    requires
        0 <= g1 < g2 < mids.len(),
        g1 < olds.len(),
        g2 < olds.len(),
        0 <= a < mids[g1].members@.len(),
        0 <= b < mids[g2].members@.len(),
        forall|j: int, m: int|
            0 <= j < olds.len() && 0 <= m < (#[trigger] mids[j]).members@.len() ==> olds[j].members.deep_view().contains((#[trigger] mids[j].members@[m])@),
        forall|ga: int, gb: int, x: int, y: int|
            0 <= ga < gb < olds.len() && 0 <= x < (#[trigger] olds[ga]).members@.len() && 0 <= y
                < (#[trigger] olds[gb]).members@.len() ==> (#[trigger] olds[ga].members@[x])@ != (
            #[trigger] olds[gb].members@[y])@,
    ensures
        (mids[g1].members@[a])@ != (mids[g2].members@[b])@,
{
    let va = (mids[g1].members@[a])@;
    let vb = (mids[g2].members@[b])@;
    assert(olds[g1].members.deep_view().contains(va));
    assert(olds[g2].members.deep_view().contains(vb));
    lemma_deep_view_bytes(&olds[g1].members);
    lemma_deep_view_bytes(&olds[g2].members);
    let x = choose|x: int|
        0 <= x < olds[g1].members.deep_view().len() && olds[g1].members.deep_view()[x] == va;
    let y = choose|y: int|
        0 <= y < olds[g2].members.deep_view().len() && olds[g2].members.deep_view()[y] == vb;
    assert((olds[g1].members@[x])@ == va);
    assert((olds[g2].members@[y])@ == vb);
    assert((olds[g1].members@[x])@ != (olds[g2].members@[y])@);
}

/// Removes the first occurrence of `name` from a member list that holds no
/// duplicates.
fn remove_name(v: &mut Vec<Vec<u8>>, name: &Vec<u8>) -> (removed: bool)
    requires
        forall|a: int, b: int|
            0 <= a < b < old(v)@.len() ==> (#[trigger] old(v)@[a])@ != (#[trigger] old(v)@[b])@,
    ensures
        final(v).deep_view() == old(v).deep_view().remove_value(name@),
        !final(v).deep_view().contains(name@),
        forall|a: int, b: int|
            0 <= a < b < final(v)@.len() ==> (#[trigger] final(v)@[a])@ != (
            #[trigger] final(v)@[b])@,
        forall|m: int|
            0 <= m < final(v)@.len() ==> old(v).deep_view().contains(
                (#[trigger] final(v)@[m])@,
            ),
        forall|m: int|
            0 <= m < old(v)@.len() && (#[trigger] old(v)@[m])@ != name@ ==> final(v).deep_view().contains((old(v)@[m])@),
{
    proof {
        lemma_deep_view_bytes(v);
    }
    let ghost dv0 = v.deep_view();
    let mut i: usize = 0;
    let n = v.len();
    while i < n
        invariant
            i <= n,
            n == v@.len(),
            *v == *old(v),
            dv0 == old(v).deep_view(),
            forall|a: int, b: int|
                0 <= a < b < old(v)@.len() ==> (#[trigger] old(v)@[a])@ != (
                #[trigger] old(v)@[b])@,
            forall|j: int| 0 <= j < i ==> (#[trigger] v@[j])@ != name@,
        decreases n - i,
    {
        if bytes_eq(&v[i], name) {
            let ghost l0 = v@;
            v.remove(i);
            proof {
                lemma_deep_view_bytes(&old(v));
                lemma_deep_view_bytes(v);
                assert(v.deep_view() =~= dv0.remove_value(name@)) by {
                    assert(dv0.index_of_first(name@) == Some(i as int)) by {
                        dv0.index_of_first_ensures(name@);
                        assert(dv0.contains(name@)) by {
                            assert(dv0[i as int] == name@);
                        }
                    }
                    assert(v.deep_view() =~= dv0.remove(i as int));
                }
                assert forall|m: int|
                    0 <= m < v@.len() implies old(v).deep_view().contains(
                    (#[trigger] v@[m])@,
                ) by {
                    let m0: int = if m < i { m } else { m + 1 };
                    assert(v@[m] == l0[m0]);
                    assert(old(v).deep_view()[m0] == (l0[m0])@);
                }
                assert forall|m: int|
                    0 <= m < old(v)@.len() && (#[trigger] old(v)@[m])@ != name@ implies v
                        .deep_view().contains((old(v)@[m])@) by {
                    let m1: int = if m < i { m } else { m - 1 };
                    assert(v@[m1] == l0[m]);
                    assert(v.deep_view()[m1] == (old(v)@[m])@);
                }
                assert(!v.deep_view().contains(name@)) by {
                    if v.deep_view().contains(name@) {
                        let j = choose|j: int|
                            0 <= j < v.deep_view().len() && v.deep_view()[j] == name@;
                        let j0: int = if j < i { j } else { j + 1 };
                        assert(v@[j] == l0[j0]);
                        assert((old(v)@[j0])@ == name@);
                        assert((old(v)@[i as int])@ == name@);
                        if j0 < i {
                            assert((old(v)@[j0])@ != (old(v)@[i as int])@);
                        } else {
                            assert((old(v)@[i as int])@ != (old(v)@[j0])@);
                        }
                    }
                }
                assert forall|a: int, b: int|
                    0 <= a < b < v@.len() implies (#[trigger] v@[a])@ != (
                #[trigger] v@[b])@ by {
                    let a0: int = if a < i { a } else { a + 1 };
                    let b0: int = if b < i { b } else { b + 1 };
                    assert(v@[a] == l0[a0]);
                    assert(v@[b] == l0[b0]);
                    assert((old(v)@[a0])@ != (old(v)@[b0])@);
                }
            }
            return true;
        }
        i += 1;
    }
    proof {
        lemma_deep_view_bytes(v);
        assert(!dv0.contains(name@)) by {
            if dv0.contains(name@) {
                let j = choose|j: int| 0 <= j < dv0.len() && dv0[j] == name@;
                assert((v@[j])@ == name@);
            }
        }
        dv0.index_of_first_ensures(name@);
        assert(v.deep_view() =~= dv0.remove_value(name@));
        assert forall|m: int|
            0 <= m < v@.len() implies old(v).deep_view().contains((#[trigger] v@[m])@) by {
            assert(old(v).deep_view()[m] == (v@[m])@);
        }
    }
    false
}


/// The camera after a wire update: finite coordinates land, a NaN leaves
/// its field unchanged; a pair of finite scales either turns on auto-view
/// (either scale zero) or sets the scale to the smaller of the two.
pub open spec fn spec_set_view(v: Camera, auto: bool, x: u32, y: u32, sx: u32, sy: u32) -> (
    Camera,
    bool,
) {
    let cx = if is_finite_bits(x) {
        x
    } else {
        v.center_x
    };
    let cy = if is_finite_bits(y) {
        y
    } else {
        v.center_y
    };
    if is_finite_bits(sx) && is_finite_bits(sy) {
        if is_zero_bits(sx) || is_zero_bits(sy) {
            (Camera { center_x: cx, center_y: cy, ..v }, true)
        } else {
            let s = if lt_bits(sx, sy) {
                sx
            } else {
                sy
            };
            (Camera { center_x: cx, center_y: cy, scale: s, ..v }, false)
        }
    } else {
        (Camera { center_x: cx, center_y: cy, ..v }, auto)
    }
}

/// Two topics that differ only in that the second's render geometry was
/// dropped (or are identical, where `dropped` does not hold).
pub open spec fn spec_same_redrawn(a: crate::content::TopicContent, b: crate::content::TopicContent) -> bool {
    &&& b.entries() == a.entries()
    &&& b.cap() == a.cap()
    &&& b.tag() == a.tag()
    &&& b.colors() == a.colors()
    &&& b.cache_state() == (crate::cache::CacheState { render_valid: false, ..a.cache_state() })
}

impl Figure {
    /// Drops every topic's render geometry.
    pub fn redraw_all(&mut self)
        requires
            old(self).wf(),
        ensures
            final(self).wf(),
            final(self).topics@.len() == old(self).topics@.len(),
            forall|i: int|
                0 <= i < old(self).topics@.len() ==> (#[trigger] final(self).topics@[i]).name == old(self).topics@[i].name && spec_same_redrawn(old(self).topics@[i].content, final(self).topics@[i].content),
            final(self).visible_layers@ == old(self).visible_layers@,
            final(self).sync_sets@ == old(self).sync_sets@,
            final(self).auto_view == old(self).auto_view,
            final(self).print_time == old(self).print_time,
            final(self).view == old(self).view,
    {
        let n = self.topics.len();
        let mut i: usize = 0;
        while i < n
            invariant
                old(self).wf(),
                i <= n,
                n == self.topics@.len(),
                n == old(self).topics@.len(),
                self.visible_layers@ == old(self).visible_layers@,
                self.sync_sets@ == old(self).sync_sets@,
                self.auto_view == old(self).auto_view,
                self.print_time == old(self).print_time,
                self.view == old(self).view,
                forall|j: int| i <= j < n ==> #[trigger] self.topics@[j] == old(self).topics@[j],
                forall|j: int|
                    0 <= j < i ==> (#[trigger] self.topics@[j]).name == old(self).topics@[j].name
                        && spec_same_redrawn(old(self).topics@[j].content, self.topics@[j].content),
            decreases n - i,
        {
            self.topics[i].content.redraw();
            i += 1;
        }
    }

    /// Applies a camera update from the wire: NaN fields are "leave
    /// unchanged", a zero scale turns auto-view on. A camera that actually
    /// changed drops every topic's render geometry.
    pub fn set_view(&mut self, x: u32, y: u32, scale_x: u32, scale_y: u32)
        requires
            old(self).wf(),
        ensures
            final(self).wf(),
            (final(self).view, final(self).auto_view) == spec_set_view(
                old(self).view,
                old(self).auto_view,
                x,
                y,
                scale_x,
                scale_y,
            ),
            final(self).topics@.len() == old(self).topics@.len(),
            final(self).view == old(self).view && final(self).auto_view == old(self).auto_view
                ==> final(self).topics@ == old(self).topics@,
            final(self).view != old(self).view ==> forall|i: int|
                0 <= i < old(self).topics@.len() ==> (#[trigger] final(self).topics@[i]).name == old(self).topics@[i].name && spec_same_redrawn(old(self).topics@[i].content, final(self).topics@[i].content),
            final(self).view == old(self).view ==> forall|i: int|
                0 <= i < old(self).topics@.len() ==> #[trigger] final(self).topics@[i] == old(self).topics@[i],
            final(self).visible_layers@ == old(self).visible_layers@,
            final(self).sync_sets@ == old(self).sync_sets@,
            final(self).print_time == old(self).print_time,
    {
        let old_view = self.view;
        if is_finite(x) {
            self.view.center_x = x;
        }
        if is_finite(y) {
            self.view.center_y = y;
        }
        if is_finite(scale_x) && is_finite(scale_y) {
            if is_zero(scale_x) || is_zero(scale_y) {
                self.auto_view = true;
            } else {
                self.auto_view = false;
                self.view.scale = if lt(scale_x, scale_y) {
                    scale_x
                } else {
                    scale_y
                };
            }
        }
        if !(self.view == old_view) {
            self.redraw_all();
        }
    }

    /// Applies an auto-fit result: the camera centers on the supplied point
    /// and takes the supplied scale only where it is finite (a degenerate
    /// box yields an infinite scale, which is ignored). A camera that
    /// actually changed drops every topic's render geometry.
    pub fn set_view_fitted(&mut self, center_x: u32, center_y: u32, scale: u32)
        requires
            old(self).wf(),
        ensures
            final(self).wf(),
            final(self).view == (Camera {
                center_x,
                center_y,
                scale: if is_finite_bits(scale) {
                    scale
                } else {
                    old(self).view.scale
                },
                ..old(self).view
            }),
            final(self).auto_view == old(self).auto_view,
            final(self).topics@.len() == old(self).topics@.len(),
            final(self).view != old(self).view ==> forall|i: int|
                0 <= i < old(self).topics@.len() ==> (#[trigger] final(self).topics@[i]).name == old(self).topics@[i].name && spec_same_redrawn(old(self).topics@[i].content, final(self).topics@[i].content),
            final(self).view == old(self).view ==> final(self).topics@ == old(self).topics@,
            final(self).visible_layers@ == old(self).visible_layers@,
            final(self).sync_sets@ == old(self).sync_sets@,
            final(self).print_time == old(self).print_time,
    {
        let old_view = self.view;
        self.view.center_x = center_x;
        self.view.center_y = center_y;
        if is_finite(scale) {
            self.view.scale = scale;
        }
        if !(self.view == old_view) {
            self.redraw_all();
        }
    }

    /// Resizes the viewport. A change drops every topic's render geometry.
    pub fn set_view_size(&mut self, size_w: u32, size_h: u32)
        requires
            old(self).wf(),
        ensures
            final(self).wf(),
            final(self).view == (Camera { size_w, size_h, ..old(self).view }),
            final(self).auto_view == old(self).auto_view,
            final(self).topics@.len() == old(self).topics@.len(),
            final(self).view != old(self).view ==> forall|i: int|
                0 <= i < old(self).topics@.len() ==> (#[trigger] final(self).topics@[i]).name == old(self).topics@[i].name && spec_same_redrawn(old(self).topics@[i].content, final(self).topics@[i].content),
            final(self).view == old(self).view ==> final(self).topics@ == old(self).topics@,
            final(self).visible_layers@ == old(self).visible_layers@,
            final(self).sync_sets@ == old(self).sync_sets@,
            final(self).print_time == old(self).print_time,
    {
        let old_view = self.view;
        self.view.size_w = size_w;
        self.view.size_h = size_h;
        if !(self.view == old_view) {
            self.redraw_all();
        }
    }

    /// Whether logging of tick timing is on (a front-end concern).
    pub fn set_print_time(&mut self, value: bool)
        requires
            old(self).wf(),
        ensures
            final(self).wf(),
            *final(self) == (Figure { print_time: value, ..*old(self) }),
    {
        self.print_time = value;
    }
}


/// Timestamp of the oldest sample of the named topic, if the topic exists
/// and has data.
pub open spec fn spec_begin_of(ts: Seq<Topic>, name: Seq<u8>) -> Option<u64> {
    match spec_find_topic(ts, name) {
        Some(i) => if ts[i].content.entries().len() > 0 {
            Some(ts[i].content.entries().last().0)
        } else {
            None
        },
        None => None,
    }
}

/// The smaller of two optional deadlines, favoring whichever exists.
pub open spec fn spec_min_opt(a: Option<u64>, b: Option<u64>) -> Option<u64> {
    match (a, b) {
        (Some(x), Some(y)) => if x <= y {
            Some(x)
        } else {
            Some(y)
        },
        (Some(x), None) => Some(x),
        (None, Some(y)) => Some(y),
        (None, None) => None,
    }
}

/// The earliest oldest-sample timestamp across a run of member topics: the
/// most permissive deadline that still respects every member's own
/// capacity-bounded history.
pub open spec fn spec_min_begin(ts: Seq<Topic>, members: Seq<Vec<u8>>) -> Option<u64>
    decreases members.len(),
{
    if members.len() == 0 {
        None
    } else {
        spec_min_opt(
            spec_min_begin(ts, members.drop_last()),
            spec_begin_of(ts, members.last()@),
        )
    }
}

/// A sync group's merged eviction deadline at time `now`: the age deadline
/// (`now` minus the group's life time, where the life time is nonzero and
/// the subtraction does not go below zero) and the count deadline (the
/// minimum oldest timestamp over the members), merged by taking the later
/// of the two.
pub open spec fn spec_group_deadline(ts: Seq<Topic>, g: SyncGroup, now: u64) -> Option<u64> {
    let age = if g.life_time != 0 && now >= g.life_time {
        Some((now - g.life_time) as u64)
    } else {
        None
    };
    let count = spec_min_begin(ts, g.members@);
    match (age, count) {
        (Some(a), Some(c)) => if a >= c {
            Some(a)
        } else {
            Some(c)
        },
        (Some(a), None) => Some(a),
        (None, Some(c)) => Some(c),
        (None, None) => None,
    }
}

/// The first group that names `name` as a member, if any.
pub open spec fn spec_member_group(gs: Seq<SyncGroup>, name: Seq<u8>) -> Option<int>
    decreases gs.len(),
{
    if gs.len() == 0 {
        None
    } else if gs[0].members.deep_view().contains(name) {
        Some(0)
    } else {
        match spec_member_group(gs.skip(1), name) {
            Some(i) => Some(i + 1),
            None => None,
        }
    }
}

/// What `spec_member_group` returns.
pub proof fn lemma_member_group(gs: Seq<SyncGroup>, name: Seq<u8>)
    ensures
        match spec_member_group(gs, name) {
            Some(i) => 0 <= i < gs.len() && gs[i].members.deep_view().contains(name) && (forall|
                j: int,
            |
                0 <= j < i ==> !(#[trigger] gs[j]).members.deep_view().contains(name)),
            None => forall|j: int|
                0 <= j < gs.len() ==> !(#[trigger] gs[j]).members.deep_view().contains(name),
        },
    decreases gs.len(),
{
    if gs.len() > 0 && !gs[0].members.deep_view().contains(name) {
        lemma_member_group(gs.skip(1), name);
        match spec_member_group(gs.skip(1), name) {
            Some(i) => {
                assert(gs.skip(1)[i] == gs[i + 1]);
                assert forall|j: int|
                    0 <= j < i + 1 implies !(#[trigger] gs[j]).members.deep_view().contains(
                    name,
                ) by {
                    if j > 0 {
                        assert(gs.skip(1)[j - 1] == gs[j]);
                    }
                }
            },
            None => {
                assert forall|j: int|
                    0 <= j < gs.len() implies !(#[trigger] gs[j]).members.deep_view().contains(
                    name,
                ) by {
                    if j > 0 {
                        assert(gs.skip(1)[j - 1] == gs[j]);
                    }
                }
            },
        }
    }
}

/// The observable outcome of the sync pass on one topic: evicted by `d`
/// where its group produced a deadline `d`.
pub open spec fn spec_synced(a: crate::content::TopicContent, b: crate::content::TopicContent, d: u64) -> bool {
    &&& b.entries() == a.entries().take(a.entries().len() - spec_evict_count(a.entries(), d))
    &&& b.cap() == a.cap()
    &&& b.tag() == a.tag()
    &&& b.colors() == a.colors()
    &&& b.cache_state() == if spec_evict_count(a.entries(), d) > 0 {
        spec_mutate(a.cache_state())
    } else {
        a.cache_state()
    }
}

/// Lookups by name depend only on the names.
proof fn lemma_find_topic_same_names(ts1: Seq<Topic>, ts2: Seq<Topic>, name: Seq<u8>)
    requires
        ts1.len() == ts2.len(),
        forall|i: int| 0 <= i < ts1.len() ==> (#[trigger] ts1[i]).name == (#[trigger] ts2[i]).name,
    ensures
        spec_find_topic(ts1, name) == spec_find_topic(ts2, name),
    decreases ts1.len(),
{
    if ts1.len() > 0 {
        assert(ts1[0].name == ts2[0].name);
        assert forall|i: int|
            0 <= i < ts1.skip(1).len() implies (#[trigger] ts1.skip(1)[i]).name == (
        #[trigger] ts2.skip(1)[i]).name by {
            assert(ts1.skip(1)[i] == ts1[i + 1]);
            assert(ts2.skip(1)[i] == ts2[i + 1]);
        }
        lemma_find_topic_same_names(ts1.skip(1), ts2.skip(1), name);
    }
}

impl Figure {
    /// The sync pass, run once per draw tick: every group computes its
    /// merged deadline from the age limit and its members' oldest samples,
    /// and evicts every member by it.
    #[verifier::rlimit(50)]
    pub fn sync(&mut self, now: u64)
        requires
            old(self).wf(),
        ensures
            final(self).wf(),
            final(self).visible_layers@ == old(self).visible_layers@,
            final(self).sync_sets@ == old(self).sync_sets@,
            final(self).auto_view == old(self).auto_view,
            final(self).print_time == old(self).print_time,
            final(self).view == old(self).view,
            final(self).topics@.len() == old(self).topics@.len(),
            forall|i: int|
                0 <= i < old(self).topics@.len() ==> (#[trigger] final(self).topics@[i]).name == old(self).topics@[i].name,
            forall|i: int|
                0 <= i < old(self).topics@.len() ==> match spec_member_group(old(self).sync_sets@, (#[trigger] old(self).topics@[i]).name@) {
                    Some(g) => match spec_group_deadline(old(self).topics@, old(self).sync_sets@[g], now) {
                        Some(d) => spec_synced(old(self).topics@[i].content, final(self).topics@[i].content, d),
                        None => final(self).topics@[i] == old(self).topics@[i],
                    },
                    None => final(self).topics@[i] == old(self).topics@[i],
                },
    {
        let ng = self.sync_sets.len();
        proof {
            assert forall|i: int| 0 <= i < old(self).topics@.len() implies spec_member_group(old(self).sync_sets@, (#[trigger] old(self).topics@[i]).name@) is Some ==> 0 <= spec_member_group(old(self).sync_sets@, old(self).topics@[i].name@)->Some_0 < old(self).sync_sets@.len() by {
                lemma_member_group(old(self).sync_sets@, old(self).topics@[i].name@);
            }
        }
        let mut gi: usize = 0;
        while gi < ng
            invariant
                old(self).wf(),
                gi <= ng,
                forall|i: int| 0 <= i < old(self).topics@.len() ==> (spec_member_group(old(self).sync_sets@, (#[trigger] old(self).topics@[i]).name@) is Some ==> 0 <= spec_member_group(old(self).sync_sets@, old(self).topics@[i].name@)->Some_0 < ng),
                ng == self.sync_sets@.len(),
                self.sync_sets@ == old(self).sync_sets@,
                self.visible_layers@ == old(self).visible_layers@,
                self.auto_view == old(self).auto_view,
                self.print_time == old(self).print_time,
                self.view == old(self).view,
                self.topics@.len() == old(self).topics@.len(),
                forall|i: int|
                    0 <= i < old(self).topics@.len() ==> (#[trigger] self.topics@[i]).name == old(self).topics@[i].name,
                forall|i: int| 0 <= i < self.topics@.len() ==> (#[trigger] self.topics@[i]).content.wf(),
                forall|i: int|
                    0 <= i < old(self).topics@.len() ==> match spec_member_group(old(self).sync_sets@, (#[trigger] old(self).topics@[i]).name@) {
                        Some(g) => if g < gi {
                            match spec_group_deadline(old(self).topics@, old(self).sync_sets@[g], now) {
                                Some(d) => spec_synced(old(self).topics@[i].content, self.topics@[i].content, d),
                                None => self.topics@[i] == old(self).topics@[i],
                            }
                        } else {
                            self.topics@[i] == old(self).topics@[i]
                        },
                        None => self.topics@[i] == old(self).topics@[i],
                    },
            decreases ng - gi,
        {
            // the age deadline
            let life = self.sync_sets[gi].life_time;
            let age: Option<u64> = if life != 0 && now >= life {
                Some(now - life)
            } else {
                None
            };
            proof {
                assert forall|i: int|
                    0 <= i < old(self).topics@.len() && old(self).sync_sets@[gi as int].members.deep_view().contains((#[trigger] old(self).topics@[i]).name@) implies self.topics@[i] == old(self).topics@[i] by {
                    let tn = old(self).topics@[i].name@;
                    lemma_member_group(old(self).sync_sets@, tn);
                    match spec_member_group(old(self).sync_sets@, tn) {
                        Some(g) => {
                            if g != gi {
                                let dvg = old(self).sync_sets@[g].members.deep_view();
                                let dvgi = old(self).sync_sets@[gi as int].members.deep_view();
                                let x = choose|x: int| 0 <= x < dvg.len() && dvg[x] == tn;
                                let y = choose|y: int| 0 <= y < dvgi.len() && dvgi[y] == tn;
                                lemma_deep_view_bytes(&old(self).sync_sets@[g].members);
                                lemma_deep_view_bytes(&old(self).sync_sets@[gi as int].members);
                                assert((old(self).sync_sets@[g].members@[x])@ == tn);
                                assert((old(self).sync_sets@[gi as int].members@[y])@ == tn);
                                if g < gi {
                                    assert((old(self).sync_sets@[g].members@[x])@ != (old(self).sync_sets@[gi as int].members@[y])@);
                                } else {
                                    assert((old(self).sync_sets@[gi as int].members@[y])@ != (old(self).sync_sets@[g].members@[x])@);
                                }
                            }
                        },
                        None => {},
                    }
                }
            }
            // the count deadline: minimum oldest timestamp over the members
            let nm = self.sync_sets[gi].members.len();
            let mut count: Option<u64> = None;
            let mut mi: usize = 0;
            while mi < nm
                invariant
                    old(self).wf(),
                    gi < ng,
                    ng == self.sync_sets@.len(),
                    self.sync_sets@ == old(self).sync_sets@,
                    mi <= nm,
                    nm == self.sync_sets@[gi as int].members@.len(),
                    self.topics@.len() == old(self).topics@.len(),
                    forall|i: int|
                        0 <= i < old(self).topics@.len() ==> (#[trigger] self.topics@[i]).name == old(self).topics@[i].name,
                    forall|i: int|
                        0 <= i < old(self).topics@.len() && old(self).sync_sets@[gi as int].members.deep_view().contains((#[trigger] old(self).topics@[i]).name@) ==> self.topics@[i] == old(self).topics@[i],
                    self.visible_layers@ == old(self).visible_layers@,
                    self.auto_view == old(self).auto_view,
                    self.print_time == old(self).print_time,
                    self.view == old(self).view,
                    forall|i: int| 0 <= i < self.topics@.len() ==> (#[trigger] self.topics@[i]).content.wf(),
                    forall|i: int|
                        0 <= i < old(self).topics@.len() ==> match spec_member_group(old(self).sync_sets@, (#[trigger] old(self).topics@[i]).name@) {
                            Some(g) => if g < gi {
                                match spec_group_deadline(old(self).topics@, old(self).sync_sets@[g], now) {
                                    Some(d2) => spec_synced(old(self).topics@[i].content, self.topics@[i].content, d2),
                                    None => self.topics@[i] == old(self).topics@[i],
                                }
                            } else {
                                self.topics@[i] == old(self).topics@[i]
                            },
                            None => self.topics@[i] == old(self).topics@[i],
                        },
                    count == spec_min_begin(old(self).topics@, old(self).sync_sets@[gi as int].members@.take(mi as int)),
                decreases nm - mi,
            {
                proof {
                    assert(old(self).sync_sets@[gi as int].members@.take(mi + 1).drop_last()
                        =~= old(self).sync_sets@[gi as int].members@.take(mi as int));
                    assert(old(self).sync_sets@[gi as int].members@.take(mi + 1).last()
                        == old(self).sync_sets@[gi as int].members@[mi as int]);
                }
                let member = &self.sync_sets[gi].members[mi];
                let b: Option<u64> = match self.find_topic(member) {
                    Some(fi) => {
                        proof {
                            lemma_find_topic_same_names(self.topics@, old(self).topics@, member@);
                            lemma_deep_view_bytes(&old(self).sync_sets@[gi as int].members);
                            assert(old(self).sync_sets@[gi as int].members.deep_view().contains(member@)) by {
                                assert(old(self).sync_sets@[gi as int].members.deep_view()[mi as int] == member@);
                            }
                            assert(self.topics@[fi as int] == old(self).topics@[fi as int]);
                        }
                        self.topics[fi].content.begin()
                    },
                    None => {
                        proof {
                            lemma_find_topic_same_names(self.topics@, old(self).topics@, member@);
                        }
                        None
                    },
                };
                count = match (count, b) {
                    (Some(x), Some(y)) => if x <= y {
                        Some(x)
                    } else {
                        Some(y)
                    },
                    (Some(x), None) => Some(x),
                    (None, y) => y,
                };
                mi += 1;
            }
            proof {
                assert(old(self).sync_sets@[gi as int].members@.take(nm as int)
                    =~= old(self).sync_sets@[gi as int].members@);
            }
            // merge: the later of the two deadlines
            let deadline: Option<u64> = match (age, count) {
                (Some(a), Some(c)) => if a >= c {
                    Some(a)
                } else {
                    Some(c)
                },
                (Some(a), None) => Some(a),
                (None, c) => c,
            };
            proof {
                assert(deadline == spec_group_deadline(old(self).topics@, old(self).sync_sets@[gi as int], now));
            }
            // evict every member by the merged deadline
            if let Some(d) = deadline {
                let mut mi: usize = 0;
                while mi < nm
                    invariant
                        old(self).wf(),
                        gi < ng,
                        ng == self.sync_sets@.len(),
                        self.sync_sets@ == old(self).sync_sets@,
                        mi <= nm,
                        nm == self.sync_sets@[gi as int].members@.len(),
                        self.visible_layers@ == old(self).visible_layers@,
                        self.auto_view == old(self).auto_view,
                        self.print_time == old(self).print_time,
                        self.view == old(self).view,
                        self.topics@.len() == old(self).topics@.len(),
                        Some(d) == spec_group_deadline(old(self).topics@, old(self).sync_sets@[gi as int], now),
                        forall|i: int|
                            0 <= i < old(self).topics@.len() ==> (#[trigger] self.topics@[i]).name == old(self).topics@[i].name,
                        forall|i: int| 0 <= i < self.topics@.len() ==> (#[trigger] self.topics@[i]).content.wf(),
                        forall|i: int|
                            0 <= i < old(self).topics@.len() ==> match spec_member_group(old(self).sync_sets@, (#[trigger] old(self).topics@[i]).name@) {
                                Some(g) => if g < gi {
                                    match spec_group_deadline(old(self).topics@, old(self).sync_sets@[g], now) {
                                        Some(d2) => spec_synced(old(self).topics@[i].content, self.topics@[i].content, d2),
                                        None => self.topics@[i] == old(self).topics@[i],
                                    }
                                } else if g == gi {
                                    if exists|m: int| 0 <= m < mi && (#[trigger] old(self).sync_sets@[gi as int].members@[m])@ == old(self).topics@[i].name@ {
                                        spec_synced(old(self).topics@[i].content, self.topics@[i].content, d)
                                    } else {
                                        self.topics@[i] == old(self).topics@[i]
                                    }
                                } else {
                                    self.topics@[i] == old(self).topics@[i]
                                },
                                None => self.topics@[i] == old(self).topics@[i],
                            },
                    decreases nm - mi,
                {
                    let member = &self.sync_sets[gi].members[mi];
                    let ghost memberv = member@;
                    let found = self.find_topic(member);
                    proof {
                        lemma_find_topic_same_names(self.topics@, old(self).topics@, memberv);
                    }
                    if let Some(fi) = found {
                        proof {
                            lemma_find_topic_same_names(self.topics@, old(self).topics@, memberv);
                            lemma_member_group(old(self).sync_sets@, memberv);
                            lemma_deep_view_bytes(&old(self).sync_sets@[gi as int].members);
                            assert(old(self).sync_sets@[gi as int].members.deep_view().contains(memberv)) by {
                                assert(old(self).sync_sets@[gi as int].members.deep_view()[mi as int] == memberv);
                            }
                            assert(spec_member_group(old(self).sync_sets@, memberv) == Some(gi as int)) by {
                                match spec_member_group(old(self).sync_sets@, memberv) {
                                    Some(g) => {
                                        if g != gi {
                                            let dvg = old(self).sync_sets@[g].members.deep_view();
                                            let x = choose|x: int| 0 <= x < dvg.len() && dvg[x] == memberv;
                                            lemma_deep_view_bytes(&old(self).sync_sets@[g].members);
                                            assert((old(self).sync_sets@[g].members@[x])@ == memberv);
                                            assert((old(self).sync_sets@[gi as int].members@[mi as int])@ == memberv);
                                        }
                                    },
                                    None => {},
                                }
                            }
                            assert(!(exists|m: int| 0 <= m < mi && (#[trigger] old(self).sync_sets@[gi as int].members@[m])@ == memberv)) by {
                                if exists|m: int| 0 <= m < mi && (#[trigger] old(self).sync_sets@[gi as int].members@[m])@ == memberv {
                                    let m = choose|m: int| 0 <= m < mi && (#[trigger] old(self).sync_sets@[gi as int].members@[m])@ == memberv;
                                    assert((old(self).sync_sets@[gi as int].members@[m])@ != (old(self).sync_sets@[gi as int].members@[mi as int])@);
                                }
                            }
                            assert(self.topics@[fi as int] == old(self).topics@[fi as int]);
                        }
                        let ghost pre_topics = self.topics@;
                        self.topics[fi].content.sync(d);
                        proof {
                            assert forall|i: int|
                                0 <= i < old(self).topics@.len() && i != fi implies #[trigger] self.topics@[i] == pre_topics[i] by {}
                            assert(spec_synced(old(self).topics@[fi as int].content, self.topics@[fi as int].content, d));
                            lemma_find_topic(old(self).topics@, memberv);
                            assert forall|i: int|
                                0 <= i < old(self).topics@.len() && i != fi implies (#[trigger] old(self).topics@[i]).name@ != memberv by {
                                if old(self).topics@[i].name@ == memberv {
                                    if i < fi {
                                        assert((old(self).topics@[i]).name@ != (old(self).topics@[fi as int]).name@);
                                    } else {
                                        assert((old(self).topics@[fi as int]).name@ != (old(self).topics@[i]).name@);
                                    }
                                }
                            }
                        }
                    } else {
                        proof {
                            lemma_find_topic(old(self).topics@, memberv);
                        }
                    }
                    mi += 1;
                }
                proof {
                    assert forall|i: int|
                        0 <= i < old(self).topics@.len() && spec_member_group(old(self).sync_sets@, (#[trigger] old(self).topics@[i]).name@) == Some(gi as int) implies (exists|m: int| 0 <= m < nm && (#[trigger] old(self).sync_sets@[gi as int].members@[m])@ == old(self).topics@[i].name@) by {
                        lemma_member_group(old(self).sync_sets@, old(self).topics@[i].name@);
                        let dv = old(self).sync_sets@[gi as int].members.deep_view();
                        assert(dv.contains(old(self).topics@[i].name@));
                        let m = choose|m: int| 0 <= m < dv.len() && dv[m] == old(self).topics@[i].name@;
                        lemma_deep_view_bytes(&old(self).sync_sets@[gi as int].members);
                        assert((old(self).sync_sets@[gi as int].members@[m])@ == old(self).topics@[i].name@);
                    }
                }
            }
            gi += 1;
        }
    }
}


/// The cached boxes of the visible topics, in topic order: a topic
/// contributes where it is visible and its bound is a cached box.
pub open spec fn spec_visible_boxes(ts: Seq<Topic>, layers: Seq<Seq<u8>>) -> Seq<crate::aabb::AABB>
    decreases ts.len(),
{
    if ts.len() == 0 {
        Seq::empty()
    } else {
        let rest = spec_visible_boxes(ts.drop_last(), layers);
        let t = ts.last();
        if spec_visible(layers, t.content.tag()) && t.content.cache_state().bound is Cached {
            rest.push(t.content.cache_state().bound->Cached_0)
        } else {
            rest
        }
    }
}

impl Figure {
    /// The merged bounding box of the visible topics, for the auto-fit
    /// view: the reduce of their cached boxes, none if no visible topic has
    /// one. Every visible topic must have answered its bounds query first.
    pub fn merge_visible_bounds(&self) -> (r: Option<crate::aabb::AABB>)
        requires
            forall|i: int|
                0 <= i < self.topics@.len() && spec_visible(self.visible_layers.deep_view(), (#[trigger] self.topics@[i]).content.tag()) ==> !(self.topics@[i].content.cache_state().bound is Suspectable || self.topics@[i].content.cache_state().bound is Invalid),
        ensures
            ({
                let boxes = spec_visible_boxes(self.topics@, self.visible_layers.deep_view());
                r == if boxes.len() == 0 {
                    None::<crate::aabb::AABB>
                } else {
                    Some(crate::aabb::spec_scan_boxes(boxes))
                }
            }),
    {
        let ghost layers = self.visible_layers.deep_view();
        let mut acc: Option<crate::aabb::AABB> = None;
        let n = self.topics.len();
        let mut i: usize = 0;
        while i < n
            invariant
                i <= n,
                n == self.topics@.len(),
                forall|j: int|
                    0 <= j < self.topics@.len() && spec_visible(self.visible_layers.deep_view(), (#[trigger] self.topics@[j]).content.tag()) ==> !(self.topics@[j].content.cache_state().bound is Suspectable || self.topics@[j].content.cache_state().bound is Invalid),
                layers == self.visible_layers.deep_view(),
                ({
                    let boxes = spec_visible_boxes(self.topics@.take(i as int), layers);
                    acc == if boxes.len() == 0 {
                        None::<crate::aabb::AABB>
                    } else {
                        Some(crate::aabb::spec_scan_boxes(boxes))
                    }
                }),
            decreases n - i,
        {
            proof {
                assert(self.topics@.take(i + 1).drop_last() =~= self.topics@.take(i as int));
                assert(self.topics@.take(i + 1).last() == self.topics@[i as int]);
            }
            if check_visible(&self.visible_layers, self.topics[i].content.layer()) {
                if !self.topics[i].content.needs_scan() {
                    if let Some(b) = self.topics[i].content.aabb_cached() {
                        let ghost boxes0 = spec_visible_boxes(self.topics@.take(i as int), layers);
                        acc = match acc {
                            None => Some(b),
                            Some(a) => Some(a.merge(b)),
                        };
                        proof {
                            let boxes1 = spec_visible_boxes(self.topics@.take(i + 1), layers);
                            assert(boxes1 == boxes0.push(b));
                            if boxes0.len() > 0 {
                                assert(boxes1.drop_last() =~= boxes0);
                            }
                        }
                    }
                }
            }
            i += 1;
        }
        proof {
            assert(self.topics@.take(n as int) =~= self.topics@);
        }
        acc
    }
}


/// One topic as the frame-application contracts see it: its name and every
/// attribute a record can set (the cache's bound and render flag evolve by
/// the cache machine's own exact contracts).
pub struct TopicModel {
    pub name: Seq<u8>,
    pub tag: Seq<u8>,
    pub cap: usize,
    pub focus: usize,
    pub entries: Seq<(u64, crate::vertex::Vertex)>,
    pub colors: Map<u8, u32>,
}

/// The model of one topic.
pub open spec fn topic_model(t: Topic) -> TopicModel {
    TopicModel {
        name: t.name@,
        tag: t.content.tag(),
        cap: t.content.cap(),
        focus: t.content.cache_state().focus_len,
        entries: t.content.entries(),
        colors: t.content.colors(),
    }
}

/// The model of the topic list.
pub open spec fn topics_model(ts: Seq<Topic>) -> Seq<TopicModel> {
    Seq::new(ts.len(), |i: int| topic_model(ts[i]))
}

/// One sync group as the frame-application contracts see it.
pub struct GroupModel {
    pub name: Seq<u8>,
    pub members: Seq<Seq<u8>>,
    pub life_time: u64,
}

/// The model of one group.
pub open spec fn group_model(g: SyncGroup) -> GroupModel {
    GroupModel { name: g.name@, members: g.members.deep_view(), life_time: g.life_time }
}

/// The model of the group list.
pub open spec fn groups_model(gs: Seq<SyncGroup>) -> Seq<GroupModel> {
    Seq::new(gs.len(), |i: int| group_model(gs[i]))
}

/// First model carrying `name`.
pub open spec fn find_topic_model(ms: Seq<TopicModel>, name: Seq<u8>) -> Option<int>
    decreases ms.len(),
{
    if ms.len() == 0 {
        None
    } else if ms[0].name == name {
        Some(0)
    } else {
        match find_topic_model(ms.skip(1), name) {
            Some(i) => Some(i + 1),
            None => None,
        }
    }
}

/// First group model carrying `name`.
pub open spec fn find_group_model(gms: Seq<GroupModel>, name: Seq<u8>) -> Option<int>
    decreases gms.len(),
{
    if gms.len() == 0 {
        None
    } else if gms[0].name == name {
        Some(0)
    } else {
        match find_group_model(gms.skip(1), name) {
            Some(i) => Some(i + 1),
            None => None,
        }
    }
}

/// The model lookup agrees with the topic lookup.
pub proof fn lemma_find_topic_model(ts: Seq<Topic>, name: Seq<u8>)
    ensures
        find_topic_model(topics_model(ts), name) == spec_find_topic(ts, name),
    decreases ts.len(),
{
    if ts.len() > 0 {
        assert(topics_model(ts)[0].name == ts[0].name@);
        assert(topics_model(ts).skip(1) =~= topics_model(ts.skip(1))) by {
            assert forall|i: int|
                0 <= i < ts.len() - 1 implies topics_model(ts).skip(1)[i] == topics_model(
                ts.skip(1),
            )[i] by {
                assert(ts.skip(1)[i] == ts[i + 1]);
            }
        }
        lemma_find_topic_model(ts.skip(1), name);
    }
}

/// Group lookups depend only on the names, so they agree between the model
/// and any model list with the same names.
pub proof fn lemma_find_group_model(gs: Seq<SyncGroup>, name: Seq<u8>)
    ensures
        find_group_model(groups_model(gs), name) == spec_find_group(gs, name),
    decreases gs.len(),
{
    if gs.len() > 0 {
        assert(groups_model(gs)[0].name == gs[0].name@);
        assert(groups_model(gs).skip(1) =~= groups_model(gs.skip(1))) by {
            assert forall|i: int|
                0 <= i < gs.len() - 1 implies groups_model(gs).skip(1)[i] == groups_model(
                gs.skip(1),
            )[i] by {
                assert(gs.skip(1)[i] == gs[i + 1]);
            }
        }
        lemma_find_group_model(gs.skip(1), name);
    }
}

/// Two group-model lists with equal names resolve every lookup alike.
pub proof fn lemma_find_group_model_same_names(a: Seq<GroupModel>, b: Seq<GroupModel>, name: Seq<u8>)
    requires
        a.len() == b.len(),
        forall|i: int| 0 <= i < a.len() ==> (#[trigger] a[i]).name == (#[trigger] b[i]).name,
    ensures
        find_group_model(a, name) == find_group_model(b, name),
    decreases a.len(),
{
    if a.len() > 0 {
        assert(a[0].name == b[0].name);
        assert forall|i: int|
            0 <= i < a.skip(1).len() implies (#[trigger] a.skip(1)[i]).name == (
        #[trigger] b.skip(1)[i]).name by {
            assert(a.skip(1)[i] == a[i + 1]);
            assert(b.skip(1)[i] == b[i + 1]);
        }
        lemma_find_group_model_same_names(a.skip(1), b.skip(1), name);
    }
}

} // verus!

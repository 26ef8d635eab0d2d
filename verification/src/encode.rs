//! Encoding a wire frame: the exact inverse of decoding. The encoder
//! collects named sync groups, layers and topic records, assigns each group
//! and layer its 1-based table index in order of first reference, and
//! writes the frame in one pass.

use vstd::prelude::*;

use crate::bytes::enc16;
use crate::bytes::enc32;
use crate::bytes::enc64;
use crate::bytes::push_u16;
use crate::bytes::push_u32;
use crate::bytes::push_u64;
use crate::bytes::push_bytes;
use crate::frame::enc_vertex;
use crate::frame::push_vertex;
use crate::frame::CameraUpdate;
use crate::frame::FrameView;
use crate::frame::LayerEntry;
use crate::frame::SyncSetEntry;
use crate::frame::TopicRecord;
use crate::frame::TopicRecordView;
use crate::frame::Visibility;
use crate::figure::bytes_eq;
use crate::vertex::Vertex;

verus! {

/// The packed region of the sync-group table: each entry's age limit, then
/// its name.
pub open spec fn packed_syncs(es: Seq<(Seq<u8>, u64)>) -> Seq<u8>
    decreases es.len(),
{
    if es.len() == 0 {
        Seq::empty()
    } else {
        packed_syncs(es.drop_last()) + enc64(es.last().1) + es.last().0
    }
}

/// The packed region of the layer table: each entry's visibility byte,
/// then its name.
pub open spec fn packed_layers(es: Seq<(Seq<u8>, Visibility)>) -> Seq<u8>
    decreases es.len(),
{
    if es.len() == 0 {
        Seq::empty()
    } else {
        packed_layers(es.drop_last()) + seq![es.last().1.spec_byte()] + es.last().0
    }
}

/// The tail-offset words of the sync-group table.
pub open spec fn tails_syncs(es: Seq<(Seq<u8>, u64)>) -> Seq<u8>
    decreases es.len(),
{
    if es.len() == 0 {
        Seq::empty()
    } else {
        tails_syncs(es.drop_last()) + enc16(packed_syncs(es).len() as u16)
    }
}

/// The tail-offset words of the layer table.
pub open spec fn tails_layers(es: Seq<(Seq<u8>, Visibility)>) -> Seq<u8>
    decreases es.len(),
{
    if es.len() == 0 {
        Seq::empty()
    } else {
        tails_layers(es.drop_last()) + enc16(packed_layers(es).len() as u16)
    }
}

/// The wire bytes of the color list.
pub open spec fn enc_colors(cs: Seq<(u8, u32)>) -> Seq<u8>
    decreases cs.len(),
{
    if cs.len() == 0 {
        Seq::empty()
    } else {
        enc_colors(cs.drop_last()) + seq![cs.last().0] + enc32(cs.last().1)
    }
}

/// The wire bytes of the sample list.
pub open spec fn enc_vertices(vs: Seq<Vertex>) -> Seq<u8>
    decreases vs.len(),
{
    if vs.len() == 0 {
        Seq::empty()
    } else {
        enc_vertices(vs.drop_last()) + enc_vertex(vs.last())
    }
}

/// The wire bytes of one topic record.
pub open spec fn enc_topic(r: TopicRecordView) -> Seq<u8> {
    enc16(r.name.len() as u16) + r.name + enc16(r.sync_set_index) + enc16(r.layer_index) + seq![
        if r.clear {
            1u8
        } else {
            0u8
        },
    ] + enc32(r.capacity) + enc32(r.focus) + enc16(r.colors.len() as u16) + enc_colors(r.colors)
        + enc16(r.vertices.len() as u16) + enc_vertices(r.vertices)
}

/// The wire bytes of the topic records, in order.
pub open spec fn enc_topics(rs: Seq<TopicRecordView>) -> Seq<u8>
    decreases rs.len(),
{
    if rs.len() == 0 {
        Seq::empty()
    } else {
        enc_topics(rs.drop_last()) + enc_topic(rs.last())
    }
}

/// The wire bytes of a whole frame.
pub open spec fn spec_encode(fv: FrameView) -> Seq<u8>
    recommends
        fv.camera is Some,
{
    let cam = fv.camera->Some_0;
    enc32(cam.x) + enc32(cam.y) + enc32(cam.scale_x) + enc32(cam.scale_y) + enc16(
        fv.sync_sets.len() as u16,
    ) + tails_syncs(fv.sync_sets) + packed_syncs(fv.sync_sets) + enc16(fv.layers.len() as u16)
        + tails_layers(fv.layers) + packed_layers(fv.layers) + enc_topics(fv.topics)
}

/// The frame is encodable: everything a 16-bit wire field must hold fits
/// in one, and every record's table references are in range.
pub open spec fn wf_frame(fv: FrameView) -> bool {
    &&& fv.camera is Some
    &&& fv.sync_sets.len() <= 0xffff
    &&& packed_syncs(fv.sync_sets).len() <= 0xffff
    &&& fv.layers.len() <= 0xffff
    &&& packed_layers(fv.layers).len() <= 0xffff
    &&& forall|i: int|
        0 <= i < fv.topics.len() ==> {
            let r = #[trigger] fv.topics[i];
            &&& r.name.len() <= 0xffff
            &&& r.colors.len() <= 0xffff
            &&& r.vertices.len() <= 0xffff
            &&& r.sync_set_index <= fv.sync_sets.len()
            &&& r.layer_index <= fv.layers.len()
        }
}

/// Builds the wire form of one topic's update, to hand to
/// [`Encoder::with_topic`].
pub struct TopicEncoder {
    rec: TopicRecord,
}

impl TopicEncoder {
    /// The record built so far.
    pub closed spec fn rec(&self) -> TopicRecordView {
        self.rec@
    }

    /// A fresh, do-nothing update.
    pub fn new() -> (r: TopicEncoder)
        ensures
            r.rec() == (TopicRecordView {
                name: Seq::<u8>::empty(),
                sync_set_index: 0,
                layer_index: 0,
                clear: false,
                capacity: 0,
                focus: 0,
                colors: Seq::<(u8, u32)>::empty(),
                vertices: Seq::<Vertex>::empty(),
            }),
    {
        TopicEncoder {
            rec: TopicRecord {
                name: Vec::new(),
                sync_set_index: 0,
                layer_index: 0,
                clear: false,
                capacity: 0,
                focus: 0,
                colors: Vec::new(),
                vertices: Vec::new(),
            },
        }
    }

    /// Sets a level's color (packed 8-bit channels, alpha high).
    pub fn set_color(&mut self, level: u8, color: u32)
        ensures
            final(self).rec() == (TopicRecordView {
                colors: old(self).rec().colors.push((level, color)),
                ..old(self).rec()
            }),
    {
        self.rec.colors.push((level, color));
    }

    /// Sets the topic's sample capacity (0 leaves it unchanged).
    pub fn set_capacity(&mut self, capacity: u32)
        ensures
            final(self).rec() == (TopicRecordView { capacity, ..old(self).rec() }),
    {
        self.rec.capacity = capacity;
    }

    /// Sets the topic's focus window (0 leaves it unchanged).
    pub fn set_focus(&mut self, focus: u32)
        ensures
            final(self).rec() == (TopicRecordView { focus, ..old(self).rec() }),
    {
        self.rec.focus = focus;
    }

    /// Asks the topic to drop its whole history, discarding any samples
    /// staged so far.
    pub fn clear(&mut self)
        ensures
            final(self).rec() == (TopicRecordView {
                clear: true,
                vertices: Seq::<Vertex>::empty(),
                ..old(self).rec()
            }),
    {
        self.rec.vertices.clear();
        self.rec.clear = true;
    }

    /// Stages one sample.
    pub fn push(&mut self, vertex: Vertex)
        ensures
            final(self).rec() == (TopicRecordView {
                vertices: old(self).rec().vertices.push(vertex),
                ..old(self).rec()
            }),
    {
        self.rec.vertices.push(vertex);
    }

    /// Stages a run of samples.
    pub fn extend(&mut self, vertices: &Vec<Vertex>)
        ensures
            final(self).rec() == (TopicRecordView {
                vertices: old(self).rec().vertices + vertices@,
                ..old(self).rec()
            }),
    {
        let mut i: usize = 0;
        while i < vertices.len()
            invariant
                i <= vertices@.len(),
                self.rec@ == (TopicRecordView {
                    vertices: old(self).rec().vertices + vertices@.take(i as int),
                    ..old(self).rec()
                }),
            decreases vertices@.len() - i,
        {
            self.rec.vertices.push(vertices[i]);
            proof {
                assert(self.rec@.vertices =~= old(self).rec().vertices + vertices@.take(i + 1));
            }
            i += 1;
        }
        proof {
            assert(old(self).rec().vertices + vertices@.take(vertices@.len() as int) =~= old(
                self,
            ).rec().vertices + vertices@);
        }
    }

    /// Stages a polyline: the first sample's tie is cut so the line does
    /// not connect to whatever came before.
    pub fn extend_polyline(&mut self, vertices: &Vec<Vertex>)
        ensures
            vertices@.len() == 0 ==> final(self).rec() == old(self).rec(),
            vertices@.len() > 0 ==> final(self).rec() == (TopicRecordView {
                vertices: old(self).rec().vertices + seq![
                    Vertex { alpha: 0, ..vertices@[0] },
                ] + vertices@.skip(1),
                ..old(self).rec()
            }),
    {
        if vertices.len() == 0 {
            return;
        }
        let first = vertices[0];
        self.push(Vertex { alpha: 0, ..first });
        proof {
            assert(self.rec@.vertices =~= old(self).rec().vertices + seq![
                Vertex { alpha: 0, ..vertices@[0] },
            ] + vertices@.subrange(1, 1));
        }
        let mut i: usize = 1;
        while i < vertices.len()
            invariant
                1 <= i <= vertices@.len(),
                self.rec@ == (TopicRecordView {
                    vertices: old(self).rec().vertices + seq![
                        Vertex { alpha: 0, ..vertices@[0] },
                    ] + vertices@.subrange(1, i as int),
                    ..old(self).rec()
                }),
            decreases vertices@.len() - i,
        {
            self.rec.vertices.push(vertices[i]);
            proof {
                assert(self.rec@.vertices =~= old(self).rec().vertices + seq![
                    Vertex { alpha: 0, ..vertices@[0] },
                ] + vertices@.subrange(1, i + 1));
            }
            i += 1;
        }
        proof {
            assert(self.rec@.vertices =~= old(self).rec().vertices + seq![
                Vertex { alpha: 0, ..vertices@[0] },
            ] + vertices@.skip(1));
        }
    }

    /// Stages a polygon: a polyline closed by repeating its first sample.
    pub fn extend_polygon(&mut self, vertices: &Vec<Vertex>)
        ensures
            vertices@.len() == 0 ==> final(self).rec() == old(self).rec(),
            vertices@.len() > 0 ==> final(self).rec() == (TopicRecordView {
                vertices: old(self).rec().vertices + seq![
                    Vertex { alpha: 0, ..vertices@[0] },
                ] + vertices@.skip(1) + seq![vertices@[0]],
                ..old(self).rec()
            }),
    {
        if vertices.len() == 0 {
            return;
        }
        self.extend_polyline(vertices);
        let first = vertices[0];
        self.push(first);
        proof {
            assert(self.rec@.vertices =~= old(self).rec().vertices + seq![
                Vertex { alpha: 0, ..vertices@[0] },
            ] + vertices@.skip(1) + seq![vertices@[0]]);
        }
    }
}

/// Collects one frame's updates and writes its wire bytes.
pub struct Encoder {
    /// The camera update; defaults to all-NaN, which changes nothing.
    pub camera: CameraUpdate,
    /// The sync groups, in table order.
    pub sync_sets: Vec<SyncSetEntry>,
    /// The layers, in table order.
    pub layers: Vec<LayerEntry>,
    /// The topic records, in frame order.
    pub topics: Vec<TopicRecord>,
}

impl Encoder {
    /// The frame built so far.
    pub open spec fn frame(&self) -> FrameView {
        FrameView {
            camera: Some(self.camera),
            sync_sets: Seq::new(
                self.sync_sets@.len(),
                |i: int| (self.sync_sets@[i].name@, self.sync_sets@[i].life_time),
            ),
            layers: Seq::new(
                self.layers@.len(),
                |i: int| (self.layers@[i].name@, self.layers@[i].visibility),
            ),
            topics: Seq::new(self.topics@.len(), |i: int| self.topics@[i]@),
        }
    }

    /// A fresh encoder: no updates at all.
    pub fn new() -> (r: Encoder)
        ensures
            r.frame() == (FrameView {
                camera: Some(CameraUpdate::spec_unchanged()),
                sync_sets: Seq::<(Seq<u8>, u64)>::empty(),
                layers: Seq::<(Seq<u8>, Visibility)>::empty(),
                topics: Seq::<TopicRecordView>::empty(),
            }),
    {
        let r = Encoder {
            camera: CameraUpdate::unchanged(),
            sync_sets: Vec::new(),
            layers: Vec::new(),
            topics: Vec::new(),
        };
        proof {
            assert(r.frame().sync_sets =~= Seq::<(Seq<u8>, u64)>::empty());
            assert(r.frame().layers =~= Seq::<(Seq<u8>, Visibility)>::empty());
            assert(r.frame().topics =~= Seq::<TopicRecordView>::empty());
        }
        r
    }
}



/// The staged records, as contracts see them.
pub open spec fn records_model(rs: Seq<TopicRecord>) -> Seq<TopicRecordView> {
    Seq::new(rs.len(), |i: int| rs[i]@)
}

/// First staged record carrying `name`.
pub open spec fn spec_find_record(rs: Seq<TopicRecordView>, name: Seq<u8>) -> Option<int>
    decreases rs.len(),
{
    if rs.len() == 0 {
        None
    } else if rs[0].name == name {
        Some(0)
    } else {
        match spec_find_record(rs.skip(1), name) {
            Some(i) => Some(i + 1),
            None => None,
        }
    }
}

/// What `spec_find_record` returns: the first match, or no match at all.
pub proof fn lemma_find_record(rs: Seq<TopicRecordView>, name: Seq<u8>)
    ensures
        match spec_find_record(rs, name) {
            Some(i) => 0 <= i < rs.len() && rs[i].name == name && (forall|j: int|
                0 <= j < i ==> (#[trigger] rs[j]).name != name),
            None => forall|j: int| 0 <= j < rs.len() ==> (#[trigger] rs[j]).name != name,
        },
    decreases rs.len(),
{
    if rs.len() > 0 && rs[0].name != name {
        lemma_find_record(rs.skip(1), name);
        match spec_find_record(rs.skip(1), name) {
            Some(i) => {
                assert(rs.skip(1)[i] == rs[i + 1]);
                assert forall|j: int| 0 <= j < i + 1 implies (#[trigger] rs[j]).name != name by {
                    if j > 0 {
                        assert(rs.skip(1)[j - 1] == rs[j]);
                    }
                }
            },
            None => {
                assert forall|j: int| 0 <= j < rs.len() implies (#[trigger] rs[j]).name != name by {
                    if j > 0 {
                        assert(rs.skip(1)[j - 1] == rs[j]);
                    }
                }
            },
        }
    }
}

/// First sync-group table entry carrying `name`.
pub open spec fn spec_find_sync(es: Seq<SyncSetEntry>, name: Seq<u8>) -> Option<int>
    decreases es.len(),
{
    if es.len() == 0 {
        None
    } else if es[0].name@ == name {
        Some(0)
    } else {
        match spec_find_sync(es.skip(1), name) {
            Some(i) => Some(i + 1),
            None => None,
        }
    }
}

/// What `spec_find_sync` returns.
pub proof fn lemma_find_sync(es: Seq<SyncSetEntry>, name: Seq<u8>)
    ensures
        match spec_find_sync(es, name) {
            Some(i) => 0 <= i < es.len() && es[i].name@ == name && (forall|j: int|
                0 <= j < i ==> (#[trigger] es[j]).name@ != name),
            None => forall|j: int| 0 <= j < es.len() ==> (#[trigger] es[j]).name@ != name,
        },
    decreases es.len(),
{
    if es.len() > 0 && es[0].name@ != name {
        lemma_find_sync(es.skip(1), name);
        match spec_find_sync(es.skip(1), name) {
            Some(i) => {
                assert(es.skip(1)[i] == es[i + 1]);
                assert forall|j: int| 0 <= j < i + 1 implies (#[trigger] es[j]).name@ != name by {
                    if j > 0 {
                        assert(es.skip(1)[j - 1] == es[j]);
                    }
                }
            },
            None => {
                assert forall|j: int| 0 <= j < es.len() implies (#[trigger] es[j]).name@ != name by {
                    if j > 0 {
                        assert(es.skip(1)[j - 1] == es[j]);
                    }
                }
            },
        }
    }
}

/// First layer table entry carrying `name`.
pub open spec fn spec_find_layer(es: Seq<LayerEntry>, name: Seq<u8>) -> Option<int>
    decreases es.len(),
{
    if es.len() == 0 {
        None
    } else if es[0].name@ == name {
        Some(0)
    } else {
        match spec_find_layer(es.skip(1), name) {
            Some(i) => Some(i + 1),
            None => None,
        }
    }
}

/// What `spec_find_layer` returns.
pub proof fn lemma_find_layer(es: Seq<LayerEntry>, name: Seq<u8>)
    ensures
        match spec_find_layer(es, name) {
            Some(i) => 0 <= i < es.len() && es[i].name@ == name && (forall|j: int|
                0 <= j < i ==> (#[trigger] es[j]).name@ != name),
            None => forall|j: int| 0 <= j < es.len() ==> (#[trigger] es[j]).name@ != name,
        },
    decreases es.len(),
{
    if es.len() > 0 && es[0].name@ != name {
        lemma_find_layer(es.skip(1), name);
        match spec_find_layer(es.skip(1), name) {
            Some(i) => {
                assert(es.skip(1)[i] == es[i + 1]);
                assert forall|j: int| 0 <= j < i + 1 implies (#[trigger] es[j]).name@ != name by {
                    if j > 0 {
                        assert(es.skip(1)[j - 1] == es[j]);
                    }
                }
            },
            None => {
                assert forall|j: int| 0 <= j < es.len() implies (#[trigger] es[j]).name@ != name by {
                    if j > 0 {
                        assert(es.skip(1)[j - 1] == es[j]);
                    }
                }
            },
        }
    }
}

/// The staged records after a group assignment lands on a run of topic
/// names: each named record (created blank on first reference) takes the
/// group's 1-based table index.
pub open spec fn spec_stamp_sync(rs: Seq<TopicRecordView>, names: Seq<Seq<u8>>, idx: u16) -> Seq<
    TopicRecordView,
>
    decreases names.len(),
{
    if names.len() == 0 {
        rs
    } else {
        let rs1 = match spec_find_record(rs, names[0]) {
            Some(i) => rs.update(i, TopicRecordView { sync_set_index: idx, ..rs[i] }),
            None => rs.push(
                TopicRecordView { sync_set_index: idx, ..crate::decode::blank_record(names[0], 0) },
            ),
        };
        spec_stamp_sync(rs1, names.skip(1), idx)
    }
}

/// The staged records after a layer assignment lands on a run of topic
/// names.
pub open spec fn spec_stamp_layer(rs: Seq<TopicRecordView>, names: Seq<Seq<u8>>, idx: u16) -> Seq<
    TopicRecordView,
>
    decreases names.len(),
{
    if names.len() == 0 {
        rs
    } else {
        let rs1 = match spec_find_record(rs, names[0]) {
            Some(i) => rs.update(i, TopicRecordView { layer_index: idx, ..rs[i] }),
            None => rs.push(
                TopicRecordView { layer_index: idx, ..crate::decode::blank_record(names[0], 0) },
            ),
        };
        spec_stamp_layer(rs1, names.skip(1), idx)
    }
}

impl Encoder {
    fn find_sync(&self, name: &Vec<u8>) -> (r: Option<usize>)
        ensures
            r is Some ==> spec_find_sync(self.sync_sets@, name@) == Some(r->Some_0 as int)
                && r->Some_0 < self.sync_sets@.len() && self.sync_sets@[
                r->Some_0 as int
            ].name@ == name@,
            r is None ==> spec_find_sync(self.sync_sets@, name@) is None,
    {
        proof {
            lemma_find_sync(self.sync_sets@, name@);
        }
        let mut i: usize = 0;
        while i < self.sync_sets.len()
            invariant
                i <= self.sync_sets@.len(),
                forall|j: int| 0 <= j < i ==> (#[trigger] self.sync_sets@[j]).name@ != name@,
            decreases self.sync_sets@.len() - i,
        {
            if bytes_eq(&self.sync_sets[i].name, name) {
                proof {
                    lemma_find_sync(self.sync_sets@, name@);
                }
                return Some(i);
            }
            i += 1;
        }
        None
    }

    fn find_layer(&self, name: &Vec<u8>) -> (r: Option<usize>)
        ensures
            r is Some ==> spec_find_layer(self.layers@, name@) == Some(r->Some_0 as int)
                && r->Some_0 < self.layers@.len() && self.layers@[r->Some_0 as int].name@ == name@,
            r is None ==> spec_find_layer(self.layers@, name@) is None,
    {
        proof {
            lemma_find_layer(self.layers@, name@);
        }
        let mut i: usize = 0;
        while i < self.layers.len()
            invariant
                i <= self.layers@.len(),
                forall|j: int| 0 <= j < i ==> (#[trigger] self.layers@[j]).name@ != name@,
            decreases self.layers@.len() - i,
        {
            if bytes_eq(&self.layers[i].name, name) {
                proof {
                    lemma_find_layer(self.layers@, name@);
                }
                return Some(i);
            }
            i += 1;
        }
        None
    }

    fn find_topic(&self, name: &Vec<u8>) -> (r: Option<usize>)
        ensures
            r is Some ==> spec_find_record(records_model(self.topics@), name@) == Some(
                r->Some_0 as int,
            ) && r->Some_0 < self.topics@.len() && self.topics@[r->Some_0 as int].name@ == name@,
            r is None ==> spec_find_record(records_model(self.topics@), name@) is None,
    {
        proof {
            lemma_find_record(records_model(self.topics@), name@);
        }
        let mut i: usize = 0;
        while i < self.topics.len()
            invariant
                i <= self.topics@.len(),
                forall|j: int| 0 <= j < i ==> (#[trigger] self.topics@[j]).name@ != name@,
            decreases self.topics@.len() - i,
        {
            if bytes_eq(&self.topics[i].name, name) {
                proof {
                    lemma_find_record(records_model(self.topics@), name@);
                    assert(records_model(self.topics@)[i as int].name == name@);
                    assert forall|j: int|
                        0 <= j < i implies (#[trigger] records_model(self.topics@)[j]).name
                        != name@ by {
                        assert(records_model(self.topics@)[j].name == self.topics@[j].name@);
                    }
                }
                return Some(i);
            }
            i += 1;
        }
        proof {
            lemma_find_record(records_model(self.topics@), name@);
            if spec_find_record(records_model(self.topics@), name@) is Some {
                let k = spec_find_record(records_model(self.topics@), name@)->Some_0;
                assert(records_model(self.topics@)[k].name == self.topics@[k].name@);
            }
        }
        None
    }

    /// The index of the topic record named `name`, created blank on first
    /// reference.
    fn topic_index(&mut self, name: &Vec<u8>) -> (i: usize)
        ensures
            i < final(self).topics@.len(),
            final(self).topics@[i as int].name@ == name@,
            final(self).camera == old(self).camera,
            final(self).sync_sets@ == old(self).sync_sets@,
            final(self).layers@ == old(self).layers@,
            ({
                let rs0 = records_model(old(self).topics@);
                match spec_find_record(rs0, name@) {
                    Some(j) => i == j && final(self).topics@ == old(self).topics@,
                    None => i == old(self).topics@.len() && records_model(final(self).topics@)
                        == rs0.push(crate::decode::blank_record(name@, 0)),
                }
            }),
    {
        proof {
            lemma_find_record(records_model(self.topics@), name@);
        }
        match self.find_topic(name) {
            Some(i) => i,
            None => {
                let i = self.topics.len();
                self.topics.push(
                    TopicRecord {
                        name: name.clone(),
                        sync_set_index: 0,
                        layer_index: 0,
                        clear: false,
                        capacity: 0,
                        focus: 0,
                        colors: Vec::new(),
                        vertices: Vec::new(),
                    },
                );
                proof {
                    assert(self.topics@[i as int]@ == crate::decode::blank_record(name@, 0));
                    assert(records_model(self.topics@) =~= records_model(old(self).topics@).push(
                        crate::decode::blank_record(name@, 0),
                    ));
                }
                i
            },
        }
    }

    /// Declares a sync group (created on first reference, its 1-based
    /// table index assigned then and reused on later calls), optionally
    /// sets its age limit, and assigns the named topics to it. A call that
    /// names no topic and no age limit does nothing.
    pub fn sync_set(&mut self, set: &Vec<u8>, topics: &Vec<Vec<u8>>, life_time: Option<u64>)
        requires
            old(self).sync_sets@.len() < 0xffff,
        ensures
            final(self).camera == old(self).camera,
            final(self).layers@ == old(self).layers@,
            topics@.len() == 0 && life_time is None ==> *final(self) == *old(self),
            topics@.len() > 0 || life_time is Some ==> ({
                let found = spec_find_sync(old(self).sync_sets@, set@);
                let gi = match found {
                    Some(i) => i,
                    None => old(self).sync_sets@.len() as int,
                };
                &&& final(self).sync_sets@.len() == (match found {
                    Some(_) => old(self).sync_sets@.len() as int,
                    None => old(self).sync_sets@.len() + 1 as int,
                })
                &&& forall|j: int|
                    0 <= j < old(self).sync_sets@.len() && j != gi ==> #[trigger] final(self).sync_sets@[j] == old(self).sync_sets@[j]
                &&& final(self).sync_sets@[gi].name@ == set@
                &&& final(self).sync_sets@[gi].life_time == (match life_time {
                    Some(l) => l,
                    None => match found {
                        Some(i) => old(self).sync_sets@[i].life_time,
                        None => 0u64,
                    },
                })
                &&& records_model(final(self).topics@) == spec_stamp_sync(
                    records_model(old(self).topics@),
                    topics.deep_view(),
                    (gi + 1) as u16,
                )
            }),
    {
        if topics.len() == 0 && life_time.is_none() {
            // a wholly empty declaration is a sender's no-op
            return;
        }
        proof {
            crate::figure::lemma_deep_view_bytes(topics);
        }
        let gi = match self.find_sync(set) {
            Some(i) => i,
            None => {
                let i = self.sync_sets.len();
                self.sync_sets.push(SyncSetEntry { name: set.clone(), life_time: 0 });
                i
            },
        };
        if let Some(l) = life_time {
            self.sync_sets[gi].life_time = l;
        }
        let index = (gi + 1) as u16;
        let ghost found = spec_find_sync(old(self).sync_sets@, set@);
        let ghost names = topics.deep_view();
        proof {
            assert(names.skip(0) =~= names);
        }
        let mut k: usize = 0;
        while k < topics.len()
            invariant
                k <= topics@.len(),
                names == topics.deep_view(),
                names.len() == topics@.len(),
                forall|j: int| 0 <= j < topics@.len() ==> names[j] == (#[trigger] topics@[j])@,
                gi < self.sync_sets@.len(),
                index == gi + 1,
                self.camera == old(self).camera,
                self.layers@ == old(self).layers@,
                found == spec_find_sync(old(self).sync_sets@, set@),
                gi == (match found {
                    Some(i) => i,
                    None => old(self).sync_sets@.len() as int,
                }),
                self.sync_sets@.len() == (match found {
                    Some(_) => old(self).sync_sets@.len() as int,
                    None => old(self).sync_sets@.len() + 1 as int,
                }),
                forall|j: int|
                    0 <= j < old(self).sync_sets@.len() && j != gi ==> #[trigger] self.sync_sets@[j] == old(self).sync_sets@[j],
                self.sync_sets@[gi as int].name@ == set@,
                self.sync_sets@[gi as int].life_time == (match life_time {
                    Some(l) => l,
                    None => match found {
                        Some(i) => old(self).sync_sets@[i].life_time,
                        None => 0u64,
                    },
                }),
                spec_stamp_sync(records_model(self.topics@), names.skip(k as int), index)
                    == spec_stamp_sync(records_model(old(self).topics@), names, index),
            decreases topics@.len() - k,
        {
            proof {
                assert(names.skip(k as int)[0] == names[k as int]);
                assert(names.skip(k as int).skip(1) =~= names.skip(k + 1));
            }
            let name = &topics[k];
            let ghost pre = records_model(self.topics@);
            let ti = self.topic_index(name);
            let ghost mid = records_model(self.topics@);
            self.topics[ti].sync_set_index = index;
            proof {
                assert forall|j: int|
                    0 <= j < self.topics@.len() && j != ti implies #[trigger] records_model(
                    self.topics@,
                )[j] == mid[j] by {}
                match spec_find_record(pre, name@) {
                    Some(i) => {
                        assert(mid == pre);
                        assert(self.topics@[ti as int]@ == (TopicRecordView {
                            sync_set_index: index,
                            ..pre[i]
                        }));
                        assert(records_model(self.topics@) =~= pre.update(
                            i,
                            TopicRecordView { sync_set_index: index, ..pre[i] },
                        ));
                    },
                    None => {
                        assert(mid == pre.push(crate::decode::blank_record(name@, 0)));
                        assert(mid[ti as int] == crate::decode::blank_record(name@, 0));
                        assert(self.topics@[ti as int]@ == (TopicRecordView {
                            sync_set_index: index,
                            ..crate::decode::blank_record(name@, 0)
                        }));
                        assert(records_model(self.topics@) =~= pre.push(
                            TopicRecordView {
                                sync_set_index: index,
                                ..crate::decode::blank_record(name@, 0)
                            },
                        ));
                    },
                }
            }
            k += 1;
        }
        proof {
            assert(names.skip(names.len() as int) =~= Seq::<Seq<u8>>::empty());
        }
    }

    /// Declares a layer (created on first reference, its 1-based table
    /// index assigned then and reused), sets its visibility request, and
    /// tags the named topics with it. A call that names no topic and no
    /// visibility does nothing.
    pub fn layer(&mut self, layer: &Vec<u8>, topics: &Vec<Vec<u8>>, visible: Option<bool>)
        requires
            old(self).layers@.len() < 0xffff,
        ensures
            final(self).camera == old(self).camera,
            final(self).sync_sets@ == old(self).sync_sets@,
            topics@.len() == 0 && visible is None ==> *final(self) == *old(self),
            topics@.len() > 0 || visible is Some ==> ({
                let found = spec_find_layer(old(self).layers@, layer@);
                let gi = match found {
                    Some(i) => i,
                    None => old(self).layers@.len() as int,
                };
                let vis = match visible {
                    Some(true) => Visibility::Visible,
                    Some(false) => Visibility::Invisible,
                    None => Visibility::NothingToDo,
                };
                &&& final(self).layers@.len() == (match found {
                    Some(_) => old(self).layers@.len() as int,
                    None => old(self).layers@.len() + 1 as int,
                })
                &&& forall|j: int|
                    0 <= j < old(self).layers@.len() && j != gi ==> #[trigger] final(self).layers@[j] == old(self).layers@[j]
                &&& final(self).layers@[gi].name@ == layer@
                &&& final(self).layers@[gi].visibility == vis
                &&& records_model(final(self).topics@) == spec_stamp_layer(
                    records_model(old(self).topics@),
                    topics.deep_view(),
                    (gi + 1) as u16,
                )
            }),
    {
        if topics.len() == 0 && visible.is_none() {
            // a wholly empty declaration is a sender's no-op
            return;
        }
        proof {
            crate::figure::lemma_deep_view_bytes(topics);
        }
        let vis = match visible {
            Some(true) => Visibility::Visible,
            Some(false) => Visibility::Invisible,
            None => Visibility::NothingToDo,
        };
        let gi = match self.find_layer(layer) {
            Some(i) => i,
            None => {
                let i = self.layers.len();
                self.layers.push(LayerEntry { name: layer.clone(), visibility: vis });
                i
            },
        };
        self.layers[gi].visibility = vis;
        let index = (gi + 1) as u16;
        let ghost found = spec_find_layer(old(self).layers@, layer@);
        let ghost names = topics.deep_view();
        proof {
            assert(names.skip(0) =~= names);
        }
        let mut k: usize = 0;
        while k < topics.len()
            invariant
                k <= topics@.len(),
                names == topics.deep_view(),
                names.len() == topics@.len(),
                forall|j: int| 0 <= j < topics@.len() ==> names[j] == (#[trigger] topics@[j])@,
                gi < self.layers@.len(),
                index == gi + 1,
                self.camera == old(self).camera,
                self.sync_sets@ == old(self).sync_sets@,
                found == spec_find_layer(old(self).layers@, layer@),
                gi == (match found {
                    Some(i) => i,
                    None => old(self).layers@.len() as int,
                }),
                self.layers@.len() == (match found {
                    Some(_) => old(self).layers@.len() as int,
                    None => old(self).layers@.len() + 1 as int,
                }),
                forall|j: int|
                    0 <= j < old(self).layers@.len() && j != gi ==> #[trigger] self.layers@[j] == old(self).layers@[j],
                self.layers@[gi as int].name@ == layer@,
                self.layers@[gi as int].visibility == (match visible {
                    Some(true) => Visibility::Visible,
                    Some(false) => Visibility::Invisible,
                    None => Visibility::NothingToDo,
                }),
                spec_stamp_layer(records_model(self.topics@), names.skip(k as int), index)
                    == spec_stamp_layer(records_model(old(self).topics@), names, index),
            decreases topics@.len() - k,
        {
            proof {
                assert(names.skip(k as int)[0] == names[k as int]);
                assert(names.skip(k as int).skip(1) =~= names.skip(k + 1));
            }
            let name = &topics[k];
            let ghost pre = records_model(self.topics@);
            let ti = self.topic_index(name);
            let ghost mid = records_model(self.topics@);
            self.topics[ti].layer_index = index;
            proof {
                assert forall|j: int|
                    0 <= j < self.topics@.len() && j != ti implies #[trigger] records_model(
                    self.topics@,
                )[j] == mid[j] by {}
                match spec_find_record(pre, name@) {
                    Some(i) => {
                        assert(mid == pre);
                        assert(self.topics@[ti as int]@ == (TopicRecordView {
                            layer_index: index,
                            ..pre[i]
                        }));
                        assert(records_model(self.topics@) =~= pre.update(
                            i,
                            TopicRecordView { layer_index: index, ..pre[i] },
                        ));
                    },
                    None => {
                        assert(mid == pre.push(crate::decode::blank_record(name@, 0)));
                        assert(mid[ti as int] == crate::decode::blank_record(name@, 0));
                        assert(self.topics@[ti as int]@ == (TopicRecordView {
                            layer_index: index,
                            ..crate::decode::blank_record(name@, 0)
                        }));
                        assert(records_model(self.topics@) =~= pre.push(
                            TopicRecordView {
                                layer_index: index,
                                ..crate::decode::blank_record(name@, 0)
                            },
                        ));
                    },
                }
            }
            k += 1;
        }
        proof {
            assert(names.skip(names.len() as int) =~= Seq::<Seq<u8>>::empty());
        }
    }

    /// Merges one topic's staged update under `name`: a record created by
    /// an earlier group or layer assignment keeps its table indices, the
    /// staged fields land on top, and every other record stays as it was.
    pub fn with_topic(&mut self, name: &Vec<u8>, t: &TopicEncoder)
        ensures
            final(self).camera == old(self).camera,
            final(self).sync_sets@ == old(self).sync_sets@,
            final(self).layers@ == old(self).layers@,
            ({
                let rs0 = records_model(old(self).topics@);
                match spec_find_record(rs0, name@) {
                    Some(i) => records_model(final(self).topics@) == rs0.update(
                        i,
                        TopicRecordView {
                            name: name@,
                            sync_set_index: rs0[i].sync_set_index,
                            layer_index: rs0[i].layer_index,
                            ..t.rec()
                        },
                    ),
                    None => records_model(final(self).topics@) == rs0.push(
                        TopicRecordView {
                            name: name@,
                            sync_set_index: 0,
                            layer_index: 0,
                            ..t.rec()
                        },
                    ),
                }
            }),
    {
        let ghost rs0 = records_model(self.topics@);
        let ti = self.topic_index(name);
        proof {
            match spec_find_record(rs0, name@) {
                Some(i) => {
                    assert(self.topics@[ti as int]@ == rs0[i]);
                },
                None => {
                    assert(records_model(self.topics@)[ti as int] == crate::decode::blank_record(
                        name@,
                        0,
                    ));
                    assert(self.topics@[ti as int]@ == crate::decode::blank_record(name@, 0));
                },
            }
        }
        let ghost mid = self.topics@;
        let sync_idx = self.topics[ti].sync_set_index;
        let layer_idx = self.topics[ti].layer_index;
        let nm = self.topics[ti].name.clone();
        proof {
            assert(nm@ =~= name@);
        }
        self.topics[ti] = TopicRecord {
            name: nm,
            sync_set_index: sync_idx,
            layer_index: layer_idx,
            clear: t.rec.clear,
            capacity: t.rec.capacity,
            focus: t.rec.focus,
            colors: clone_pairs(&t.rec.colors),
            vertices: clone_vertices(&t.rec.vertices),
        };
        proof {
            match spec_find_record(rs0, name@) {
                Some(i) => {
                    assert(records_model(self.topics@) =~= rs0.update(
                        i,
                        TopicRecordView {
                            name: name@,
                            sync_set_index: rs0[i].sync_set_index,
                            layer_index: rs0[i].layer_index,
                            ..t.rec()
                        },
                    ));
                },
                None => {
                    assert(records_model(mid) == rs0.push(crate::decode::blank_record(name@, 0)));
                    assert forall|j: int|
                        0 <= j < rs0.len() implies #[trigger] records_model(self.topics@)[j]
                        == rs0[j] by {
                        assert(self.topics@[j] == mid[j]);
                        assert(records_model(mid)[j] == mid[j]@);
                        assert(rs0.push(crate::decode::blank_record(name@, 0))[j] == rs0[j]);
                    }
                    assert(self.topics@.len() == mid.len());
                    assert(records_model(mid).len() == mid.len());
                    assert(mid.len() == rs0.len() + 1);
                    assert(records_model(self.topics@).len() == rs0.len() + 1);
                    assert(records_model(self.topics@)[ti as int] == self.topics@[ti as int]@);
                    assert(self.topics@[ti as int]@ == (TopicRecordView {
                        name: name@,
                        sync_set_index: 0,
                        layer_index: 0,
                        ..t.rec()
                    }));
                    assert(records_model(self.topics@) =~= rs0.push(
                        TopicRecordView {
                            name: name@,
                            sync_set_index: 0,
                            layer_index: 0,
                            ..t.rec()
                        },
                    ));
                },
            }
        }
    }

    /// Declares a topic's configuration in one call: capacity, focus
    /// window, and a color table, staged under `name` like
    /// [`Encoder::with_topic`].
    pub fn config_topic(&mut self, name: &Vec<u8>, capacity: u32, focus: u32, colors: &Vec<(u8, u32)>)
        ensures
            final(self).camera == old(self).camera,
            final(self).sync_sets@ == old(self).sync_sets@,
            final(self).layers@ == old(self).layers@,
            ({
                let rs0 = records_model(old(self).topics@);
                let staged = |sync_idx: u16, layer_idx: u16| TopicRecordView {
                    name: name@,
                    sync_set_index: sync_idx,
                    layer_index: layer_idx,
                    clear: false,
                    capacity,
                    focus,
                    colors: colors@,
                    vertices: Seq::<Vertex>::empty(),
                };
                match spec_find_record(rs0, name@) {
                    Some(i) => records_model(final(self).topics@) == rs0.update(
                        i,
                        staged(rs0[i].sync_set_index, rs0[i].layer_index),
                    ),
                    None => records_model(final(self).topics@) == rs0.push(staged(0, 0)),
                }
            }),
    {
        let mut t = TopicEncoder::new();
        t.set_capacity(capacity);
        t.set_focus(focus);
        proof {
            assert(colors@.take(0) =~= Seq::<(u8, u32)>::empty());
        }
        let mut k: usize = 0;
        while k < colors.len()
            invariant
                k <= colors@.len(),
                t.rec() == (TopicRecordView {
                    name: Seq::<u8>::empty(),
                    sync_set_index: 0,
                    layer_index: 0,
                    clear: false,
                    capacity,
                    focus,
                    colors: colors@.take(k as int),
                    vertices: Seq::<Vertex>::empty(),
                }),
            decreases colors@.len() - k,
        {
            t.set_color(colors[k].0, colors[k].1);
            proof {
                assert(colors@.take(k as int).push(colors@[k as int]) =~= colors@.take(k + 1));
            }
            k += 1;
        }
        proof {
            assert(colors@.take(colors@.len() as int) =~= colors@);
        }
        self.with_topic(name, &t);
    }
}

/// A copy of a list of pairs.
fn clone_pairs(v: &Vec<(u8, u32)>) -> (r: Vec<(u8, u32)>)
    ensures
        r@ == v@,
{
    let mut r: Vec<(u8, u32)> = Vec::new();
    let mut i: usize = 0;
    while i < v.len()
        invariant
            i <= v@.len(),
            r@ == v@.take(i as int),
        decreases v@.len() - i,
    {
        r.push(v[i]);
        proof {
            assert(r@ =~= v@.take(i + 1));
        }
        i += 1;
    }
    proof {
        assert(v@.take(v@.len() as int) =~= v@);
    }
    r
}

/// A copy of a list of samples.
fn clone_vertices(v: &Vec<Vertex>) -> (r: Vec<Vertex>)
    ensures
        r@ == v@,
{
    let mut r: Vec<Vertex> = Vec::new();
    let mut i: usize = 0;
    while i < v.len()
        invariant
            i <= v@.len(),
            r@ == v@.take(i as int),
        decreases v@.len() - i,
    {
        r.push(v[i]);
        proof {
            assert(r@ =~= v@.take(i + 1));
        }
        i += 1;
    }
    proof {
        assert(v@.take(v@.len() as int) =~= v@);
    }
    r
}


/// The view of a sync-group entry list.
pub open spec fn syncs_view(v: Seq<SyncSetEntry>) -> Seq<(Seq<u8>, u64)> {
    Seq::new(v.len(), |i: int| (v[i].name@, v[i].life_time))
}

/// The view of a layer entry list.
pub open spec fn layers_view(v: Seq<LayerEntry>) -> Seq<(Seq<u8>, Visibility)> {
    Seq::new(v.len(), |i: int| (v[i].name@, v[i].visibility))
}

proof fn lemma_packed_syncs_prefix(es: Seq<(Seq<u8>, u64)>, i: int)
    requires
        0 <= i <= es.len(),
    ensures
        packed_syncs(es.take(i)).len() <= packed_syncs(es).len(),
    decreases es.len() - i,
{
    if i < es.len() {
        assert(es.take(es.len() - 1) =~= es.drop_last());
        assert(es.drop_last().take(i) =~= es.take(i));
        lemma_packed_syncs_prefix(es.drop_last(), i);
    } else {
        assert(es.take(i) =~= es);
    }
}

proof fn lemma_packed_layers_prefix(es: Seq<(Seq<u8>, Visibility)>, i: int)
    requires
        0 <= i <= es.len(),
    ensures
        packed_layers(es.take(i)).len() <= packed_layers(es).len(),
    decreases es.len() - i,
{
    if i < es.len() {
        assert(es.take(es.len() - 1) =~= es.drop_last());
        assert(es.drop_last().take(i) =~= es.take(i));
        lemma_packed_layers_prefix(es.drop_last(), i);
    } else {
        assert(es.take(i) =~= es);
    }
}

/// Writes the sync-group table.
fn write_sync_table(entries: &Vec<SyncSetEntry>, out: &mut Vec<u8>)
    requires
        entries@.len() <= 0xffff,
        packed_syncs(syncs_view(entries@)).len() <= 0xffff,
    ensures
        final(out)@ == old(out)@ + enc16(entries@.len() as u16) + tails_syncs(syncs_view(entries@))
            + packed_syncs(syncs_view(entries@)),
{
    let ghost es = syncs_view(entries@);
    let mut packed: Vec<u8> = Vec::new();
    let mut tails: Vec<u8> = Vec::new();
    let mut i: usize = 0;
    while i < entries.len()
        invariant
            i <= entries@.len(),
            es == syncs_view(entries@),
            entries@.len() <= 0xffff,
            packed_syncs(es).len() <= 0xffff,
            packed@ == packed_syncs(es.take(i as int)),
            tails@ == tails_syncs(es.take(i as int)),
        decreases entries@.len() - i,
    {
        proof {
            assert(es.take(i + 1).drop_last() =~= es.take(i as int));
            assert(es.take(i + 1).last() == es[i as int]);
        }
        push_u64(&mut packed, entries[i].life_time);
        push_bytes(&mut packed, &entries[i].name);
        proof {
            assert(packed@ =~= packed_syncs(es.take(i + 1)));
            lemma_packed_syncs_prefix(es, i + 1);
        }
        push_u16(&mut tails, packed.len() as u16);
        i += 1;
    }
    proof {
        assert(es.take(es.len() as int) =~= es);
    }
    push_u16(out, entries.len() as u16);
    push_bytes(out, &tails);
    push_bytes(out, &packed);
    proof {
        assert(final(out)@ =~= old(out)@ + enc16(entries@.len() as u16) + tails_syncs(es)
            + packed_syncs(es));
    }
}

/// Writes the layer table.
fn write_layer_table(entries: &Vec<LayerEntry>, out: &mut Vec<u8>)
    requires
        entries@.len() <= 0xffff,
        packed_layers(layers_view(entries@)).len() <= 0xffff,
    ensures
        final(out)@ == old(out)@ + enc16(entries@.len() as u16) + tails_layers(
            layers_view(entries@),
        ) + packed_layers(layers_view(entries@)),
{
    let ghost es = layers_view(entries@);
    let mut packed: Vec<u8> = Vec::new();
    let mut tails: Vec<u8> = Vec::new();
    let mut i: usize = 0;
    while i < entries.len()
        invariant
            i <= entries@.len(),
            es == layers_view(entries@),
            entries@.len() <= 0xffff,
            packed_layers(es).len() <= 0xffff,
            packed@ == packed_layers(es.take(i as int)),
            tails@ == tails_layers(es.take(i as int)),
        decreases entries@.len() - i,
    {
        proof {
            assert(es.take(i + 1).drop_last() =~= es.take(i as int));
            assert(es.take(i + 1).last() == es[i as int]);
        }
        packed.push(entries[i].visibility.to_byte());
        push_bytes(&mut packed, &entries[i].name);
        proof {
            assert(packed@ =~= packed_layers(es.take(i + 1)));
            lemma_packed_layers_prefix(es, i + 1);
        }
        push_u16(&mut tails, packed.len() as u16);
        i += 1;
    }
    proof {
        assert(es.take(es.len() as int) =~= es);
    }
    push_u16(out, entries.len() as u16);
    push_bytes(out, &tails);
    push_bytes(out, &packed);
    proof {
        assert(final(out)@ =~= old(out)@ + enc16(entries@.len() as u16) + tails_layers(es)
            + packed_layers(es));
    }
}

/// Writes one topic record.
#[verifier::rlimit(100)]
fn write_topic(rec: &TopicRecord, out: &mut Vec<u8>)
    requires
        rec.name@.len() <= 0xffff,
        rec.colors@.len() <= 0xffff,
        rec.vertices@.len() <= 0xffff,
    ensures
        final(out)@ == old(out)@ + enc_topic(rec@),
{
    push_u16(out, rec.name.len() as u16);
    push_bytes(out, &rec.name);
    push_u16(out, rec.sync_set_index);
    push_u16(out, rec.layer_index);
    out.push(if rec.clear {
        1
    } else {
        0
    });
    push_u32(out, rec.capacity);
    push_u32(out, rec.focus);
    push_u16(out, rec.colors.len() as u16);
    let ghost mark = out@;
    let mut k: usize = 0;
    while k < rec.colors.len()
        invariant
            k <= rec.colors@.len(),
            out@ == mark + enc_colors(rec.colors@.take(k as int)),
        decreases rec.colors@.len() - k,
    {
        proof {
            assert(rec.colors@.take(k + 1).drop_last() =~= rec.colors@.take(k as int));
            assert(rec.colors@.take(k + 1).last() == rec.colors@[k as int]);
        }
        out.push(rec.colors[k].0);
        push_u32(out, rec.colors[k].1);
        proof {
            assert(out@ =~= mark + enc_colors(rec.colors@.take(k + 1)));
        }
        k += 1;
    }
    proof {
        assert(rec.colors@.take(rec.colors@.len() as int) =~= rec.colors@);
    }
    push_u16(out, rec.vertices.len() as u16);
    let ghost mark2 = out@;
    let mut k: usize = 0;
    while k < rec.vertices.len()
        invariant
            k <= rec.vertices@.len(),
            out@ == mark2 + enc_vertices(rec.vertices@.take(k as int)),
        decreases rec.vertices@.len() - k,
    {
        proof {
            assert(rec.vertices@.take(k + 1).drop_last() =~= rec.vertices@.take(k as int));
            assert(rec.vertices@.take(k + 1).last() == rec.vertices@[k as int]);
        }
        push_vertex(out, &rec.vertices[k]);
        proof {
            assert(out@ =~= mark2 + enc_vertices(rec.vertices@.take(k + 1)));
        }
        k += 1;
    }
    proof {
        assert(rec.vertices@.take(rec.vertices@.len() as int) =~= rec.vertices@);
        assert(final(out)@ =~= old(out)@ + enc_topic(rec@));
    }
}

impl Encoder {
    /// Writes the frame's wire bytes.
    pub fn encode(&self) -> (out: Vec<u8>)
        requires
            wf_frame(self.frame()),
        ensures
            out@ == spec_encode(self.frame()),
    {
        let ghost fv = self.frame();
        let mut out: Vec<u8> = Vec::new();
        push_u32(&mut out, self.camera.x);
        push_u32(&mut out, self.camera.y);
        push_u32(&mut out, self.camera.scale_x);
        push_u32(&mut out, self.camera.scale_y);
        proof {
            assert(syncs_view(self.sync_sets@) =~= fv.sync_sets);
            assert(layers_view(self.layers@) =~= fv.layers);
        }
        write_sync_table(&self.sync_sets, &mut out);
        write_layer_table(&self.layers, &mut out);
        let ghost mark = out@;
        let ghost rs = fv.topics;
        let mut i: usize = 0;
        while i < self.topics.len()
            invariant
                i <= self.topics@.len(),
                rs == Seq::new(self.topics@.len(), |j: int| self.topics@[j]@),
                wf_frame(self.frame()),
                fv == self.frame(),
                out@ == mark + enc_topics(rs.take(i as int)),
            decreases self.topics@.len() - i,
        {
            proof {
                assert(rs.take(i + 1).drop_last() =~= rs.take(i as int));
                assert(rs.take(i + 1).last() == rs[i as int]);
                assert(fv.topics[i as int] == self.topics@[i as int]@);
            }
            write_topic(&self.topics[i], &mut out);
            proof {
                assert(out@ =~= mark + enc_topics(rs.take(i + 1)));
            }
            i += 1;
        }
        proof {
            assert(rs.take(rs.len() as int) =~= rs);
            assert(out@ =~= spec_encode(fv));
        }
        out
    }
}

} // verus!

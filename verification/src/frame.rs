//! The wire frame: what one datagram says. A frame carries a camera
//! update, a sync-group table, a layer table, and topic records; every
//! integer travels little-endian and every table is length-prefixed.

use vstd::prelude::*;

use crate::bytes::enc32;
use crate::bytes::u32_at;
use crate::vertex::Shape;
use crate::vertex::Vertex;

verus! {

/// The camera update at the head of every frame: center and scale as
/// binary32 bit patterns. A NaN field means "leave unchanged"; a zero
/// scale turns the automatic view on.
#[derive(Clone, Copy, PartialEq, Eq, Structural, Debug)]
pub struct CameraUpdate {
    pub x: u32,
    pub y: u32,
    pub scale_x: u32,
    pub scale_y: u32,
}

/// The bit pattern of a quiet NaN: the camera field value that leaves the
/// camera unchanged.
pub const BITS_NAN: u32 = 0x7fc0_0000;

impl CameraUpdate {
    /// The update that changes nothing.
    pub fn unchanged() -> (r: CameraUpdate)
        ensures
            r == Self::spec_unchanged(),
    {
        CameraUpdate { x: BITS_NAN, y: BITS_NAN, scale_x: BITS_NAN, scale_y: BITS_NAN }
    }

    /// The update that changes nothing.
    pub open spec fn spec_unchanged() -> CameraUpdate {
        CameraUpdate { x: BITS_NAN, y: BITS_NAN, scale_x: BITS_NAN, scale_y: BITS_NAN }
    }
}

/// What a layer table entry asks of its layer.
#[derive(Clone, Copy, PartialEq, Eq, Structural, Debug)]
pub enum Visibility {
    NothingToDo,
    Visible,
    Invisible,
}

impl Visibility {
    /// The wire byte of this request.
    pub open spec fn spec_byte(self) -> u8 {
        match self {
            Visibility::NothingToDo => 0,
            Visibility::Visible => 0x55,
            Visibility::Invisible => 0xaa,
        }
    }

    /// The wire byte of this request.
    pub fn to_byte(self) -> (r: u8)
        ensures
            r == self.spec_byte(),
    {
        match self {
            Visibility::NothingToDo => 0,
            Visibility::Visible => 0x55,
            Visibility::Invisible => 0xaa,
        }
    }

    /// The request a wire byte stands for; anything else is malformed.
    pub open spec fn spec_from_byte(b: u8) -> Option<Visibility> {
        if b == 0 {
            Some(Visibility::NothingToDo)
        } else if b == 0x55 {
            Some(Visibility::Visible)
        } else if b == 0xaa {
            Some(Visibility::Invisible)
        } else {
            None
        }
    }

    /// Reads a request from its wire byte.
    pub fn from_byte(b: u8) -> (r: Option<Visibility>)
        ensures
            r == Self::spec_from_byte(b),
    {
        if b == 0 {
            Some(Visibility::NothingToDo)
        } else if b == 0x55 {
            Some(Visibility::Visible)
        } else if b == 0xaa {
            Some(Visibility::Invisible)
        } else {
            None
        }
    }
}

/// A sync-group table entry: the group's name and its age limit in
/// nanoseconds (0 meaning none).
pub struct SyncSetEntry {
    pub name: Vec<u8>,
    pub life_time: u64,
}

/// A layer table entry: the layer's name and what to do with it.
pub struct LayerEntry {
    pub name: Vec<u8>,
    pub visibility: Visibility,
}

/// One topic record: every field's zero or empty value means "leave
/// unchanged", so a record truncated by a short datagram reads as a record
/// whose remaining fields do nothing.
pub struct TopicRecord {
    pub name: Vec<u8>,
    /// 0, or a 1-based index into the frame's sync-group table.
    pub sync_set_index: u16,
    /// 0, or a 1-based index into the frame's layer table.
    pub layer_index: u16,
    pub clear: bool,
    pub capacity: u32,
    pub focus: u32,
    pub colors: Vec<(u8, u32)>,
    pub vertices: Vec<Vertex>,
}

/// A whole decoded frame. `camera` is present unless the datagram was too
/// short to hold one, in which case nothing else is either.
pub struct Frame {
    pub camera: Option<CameraUpdate>,
    pub sync_sets: Vec<SyncSetEntry>,
    pub layers: Vec<LayerEntry>,
    pub topics: Vec<TopicRecord>,
}

/// The ghost mirror of a topic record.
pub struct TopicRecordView {
    pub name: Seq<u8>,
    pub sync_set_index: u16,
    pub layer_index: u16,
    pub clear: bool,
    pub capacity: u32,
    pub focus: u32,
    pub colors: Seq<(u8, u32)>,
    pub vertices: Seq<Vertex>,
}

/// The ghost mirror of a frame.
pub struct FrameView {
    pub camera: Option<CameraUpdate>,
    pub sync_sets: Seq<(Seq<u8>, u64)>,
    pub layers: Seq<(Seq<u8>, Visibility)>,
    pub topics: Seq<TopicRecordView>,
}

impl View for TopicRecord {
    type V = TopicRecordView;

    open spec fn view(&self) -> TopicRecordView {
        TopicRecordView {
            name: self.name@,
            sync_set_index: self.sync_set_index,
            layer_index: self.layer_index,
            clear: self.clear,
            capacity: self.capacity,
            focus: self.focus,
            colors: self.colors@,
            vertices: self.vertices@,
        }
    }
}

impl View for Frame {
    type V = FrameView;

    open spec fn view(&self) -> FrameView {
        FrameView {
            camera: self.camera,
            sync_sets: Seq::new(
                self.sync_sets@.len(),
                |i: int| (self.sync_sets@[i].name@, self.sync_sets@[i].life_time),
            ),
            layers: Seq::new(
                self.layers@.len(),
                |i: int| (self.layers@[i].name@, self.layers@[i].visibility),
            ),
            topics: Seq::new(self.topics@.len(), |i: int| self.topics@[i]@),
        }
    }
}

/// The 16 wire bytes of a sample: position, level, the tie opacity, a zero
/// pad, the shape, and the extra scalar.
pub open spec fn enc_vertex(v: Vertex) -> Seq<u8> {
    enc32(v.x) + enc32(v.y) + seq![v.level, v.alpha, 0u8, v.shape.spec_byte()] + enc32(v.extra)
}

/// The sample whose 16 wire bytes start at `i`; none if the shape byte is
/// not a known shape.
pub open spec fn vertex_at(s: Seq<u8>, i: int) -> Option<Vertex> {
    match Shape::spec_from_byte(s[i + 11]) {
        Some(shape) => Some(
            Vertex {
                x: u32_at(s, i) as u32,
                y: u32_at(s, i + 4) as u32,
                level: s[i + 8],
                alpha: s[i + 9],
                shape,
                extra: u32_at(s, i + 12) as u32,
            },
        ),
        None => None,
    }
}

/// Reads the sample whose 16 wire bytes start at `i`.
pub fn read_vertex(buf: &Vec<u8>, i: usize) -> (r: Option<Vertex>)
    requires
        i + 16 <= buf.len(),
    ensures
        r == vertex_at(buf@, i as int),
{
    match Shape::from_byte(buf[i + 11]) {
        Some(shape) => {
            Some(
                Vertex {
                    x: crate::bytes::read_u32(buf, i),
                    y: crate::bytes::read_u32(buf, i + 4),
                    level: buf[i + 8],
                    alpha: buf[i + 9],
                    shape,
                    extra: crate::bytes::read_u32(buf, i + 12),
                },
            )
        },
        None => None,
    }
}

/// Appends the 16 wire bytes of a sample.
pub fn push_vertex(buf: &mut Vec<u8>, v: &Vertex)
    ensures
        final(buf)@ == old(buf)@ + enc_vertex(*v),
{
    crate::bytes::push_u32(buf, v.x);
    crate::bytes::push_u32(buf, v.y);
    buf.push(v.level);
    buf.push(v.alpha);
    buf.push(0);
    buf.push(v.shape.to_byte());
    crate::bytes::push_u32(buf, v.extra);
    proof {
        assert(final(buf)@ =~= old(buf)@ + enc_vertex(*v));
    }
}

/// Reading back the 16 written bytes of a sample gives the sample.
pub proof fn lemma_vertex_round_trip(v: Vertex, s: Seq<u8>, i: int)
    requires
        0 <= i,
        i + 16 <= s.len(),
        s.subrange(i, i + 16) == enc_vertex(v),
    ensures
        vertex_at(s, i) == Some(v),
{
    let e = enc_vertex(v);
    assert(enc32(v.x).len() == 4);
    assert(enc32(v.y).len() == 4);
    assert(enc32(v.extra).len() == 4);
    assert((enc32(v.x) + enc32(v.y)).len() == 8);
    assert((enc32(v.x) + enc32(v.y) + seq![v.level, v.alpha, 0u8, v.shape.spec_byte()]).len()
        == 12);
    assert(e.len() == 16);
    assert forall|k: int| 0 <= k < 16 implies s[i + k] == e[k] by {
        assert(s.subrange(i, i + 16)[k] == s[i + k]);
    }
    assert forall|m: int| 0 <= m < 4 implies e[m] == enc32(v.x)[m] && e[4 + m] == enc32(v.y)[m]
        && e[12 + m] == enc32(v.extra)[m] by {}
    assert(e[8] == v.level);
    assert(e[9] == v.alpha);
    assert(e[11] == v.shape.spec_byte());
    assert(s.subrange(i, i + 4) =~= enc32(v.x));
    assert(s.subrange(i + 4, i + 8) =~= enc32(v.y));
    assert(s.subrange(i + 12, i + 16) =~= enc32(v.extra));
    crate::bytes::lemma_enc32_at(v.x, s, i);
    crate::bytes::lemma_enc32_at(v.y, s, i + 4);
    crate::bytes::lemma_enc32_at(v.extra, s, i + 12);
    assert(s[i + 8] == v.level);
    assert(s[i + 9] == v.alpha);
    assert(s[i + 11] == v.shape.spec_byte());
}

} // verus!

//! Decoding a wire frame: a single forward pass with no backtracking. Any
//! field that does not fit in the remaining buffer ends the frame there;
//! everything decoded before that point stands, since each field is
//! independently idempotent.

use vstd::prelude::*;

use crate::bytes::read_u16;
use crate::bytes::read_u32;
use crate::bytes::read_u64;
use crate::bytes::copy_range;
use crate::bytes::u16_at;
use crate::bytes::u32_at;
use crate::bytes::u64_at;
use crate::frame::vertex_at;
use crate::frame::read_vertex;
use crate::frame::CameraUpdate;
use crate::frame::Frame;
use crate::frame::FrameView;
use crate::frame::LayerEntry;
use crate::frame::SyncSetEntry;
use crate::frame::TopicRecord;
use crate::frame::TopicRecordView;
use crate::frame::Visibility;
use crate::vertex::Vertex;

verus! {

/// Number of entries a table claims.
pub open spec fn table_count(s: Seq<u8>, off: int) -> int {
    u16_at(s, off)
}

/// The i-th tail offset: where the i-th packed entry ends, measured from
/// the start of the packed region.
pub open spec fn table_tail(s: Seq<u8>, off: int, i: int) -> int {
    u16_at(s, off + 2 + 2 * i)
}

/// Where the i-th packed entry starts, measured from the start of the
/// packed region.
pub open spec fn table_start(s: Seq<u8>, off: int, i: int) -> int {
    if i == 0 {
        0
    } else {
        table_tail(s, off, i - 1)
    }
}

/// Where a table's packed region starts.
pub open spec fn table_packed(s: Seq<u8>, off: int) -> int {
    off + 2 + 2 * table_count(s, off)
}

/// Where a table ends: one past its packed region.
pub open spec fn table_end(s: Seq<u8>, off: int) -> int {
    table_packed(s, off) + (if table_count(s, off) == 0 {
        0int
    } else {
        table_tail(s, off, table_count(s, off) - 1)
    })
}

/// The table at `off` fits in the buffer and its tail offsets are
/// coherent: each entry holds at least its fixed-width value.
pub open spec fn table_valid(s: Seq<u8>, off: int, vlen: int) -> bool {
    &&& off + 2 <= s.len()
    &&& table_packed(s, off) <= s.len()
    &&& table_end(s, off) <= s.len()
    &&& forall|i: int|
        0 <= i < table_count(s, off) ==> #[trigger] table_tail(s, off, i) >= table_start(s, off, i)
            + vlen
}

/// Name bytes of the i-th entry: what follows its fixed-width value.
pub open spec fn table_name(s: Seq<u8>, off: int, vlen: int, i: int) -> Seq<u8> {
    s.subrange(
        table_packed(s, off) + table_start(s, off, i) + vlen,
        table_packed(s, off) + table_tail(s, off, i),
    )
}

/// The sync-group table's entries.
pub open spec fn sync_entries(s: Seq<u8>, off: int) -> Seq<(Seq<u8>, u64)> {
    Seq::new(
        table_count(s, off) as nat,
        |i: int|
            (
                table_name(s, off, 8, i),
                u64_at(s, table_packed(s, off) + table_start(s, off, i)) as u64,
            ),
    )
}

/// Every layer entry's visibility byte is a known request.
pub open spec fn layers_ok(s: Seq<u8>, off: int) -> bool {
    forall|i: int|
        0 <= i < table_count(s, off) ==> Visibility::spec_from_byte(
            #[trigger] s[table_packed(s, off) + table_start(s, off, i)],
        ) is Some
}

/// The layer table's entries.
pub open spec fn layer_entries(s: Seq<u8>, off: int) -> Seq<(Seq<u8>, Visibility)> {
    Seq::new(
        table_count(s, off) as nat,
        |i: int|
            (
                table_name(s, off, 1, i),
                Visibility::spec_from_byte(s[table_packed(s, off) + table_start(s, off, i)])->Some_0,
            ),
    )
}

/// The colors of a topic record: `n` pairs of a level byte and a packed
/// color, 5 bytes each, starting at `i`.
pub open spec fn colors_at(s: Seq<u8>, i: int, n: int) -> Seq<(u8, u32)> {
    Seq::new(n as nat, |k: int| (s[i + 5 * k], u32_at(s, i + 5 * k + 1) as u32))
}

/// Every sample in the run has a known shape byte.
pub open spec fn vertices_ok(s: Seq<u8>, i: int, n: int) -> bool {
    forall|k: int| 0 <= k < n ==> (#[trigger] vertex_at(s, i + 16 * k)) is Some
}

/// The samples of a topic record: `n` of them, 16 bytes each, starting at
/// `i`.
pub open spec fn vertices_at(s: Seq<u8>, i: int, n: int) -> Seq<Vertex> {
    Seq::new(n as nat, |k: int| vertex_at(s, i + 16 * k)->Some_0)
}

/// An empty record under `name`: every other field leaves its topic
/// unchanged.
pub open spec fn blank_record(name: Seq<u8>, sync_idx: u16) -> TopicRecordView {
    TopicRecordView {
        name,
        sync_set_index: sync_idx,
        layer_index: 0,
        clear: false,
        capacity: 0,
        focus: 0,
        colors: Seq::empty(),
        vertices: Seq::empty(),
    }
}

/// One topic record parsed at `off`: the records it yields (none where
/// even its name and group index do not fit, one otherwise), and where the
/// next record starts, if this one was complete.
pub open spec fn parse_topic_step(s: Seq<u8>, off: int, nsync: int, nlayer: int) -> (
    Option<TopicRecordView>,
    Option<int>,
) {
    if off + 2 > s.len() {
        (None, None)
    } else {
        let nl = u16_at(s, off);
        let name_end = off + 2 + nl;
        if name_end + 2 > s.len() {
            (None, None)
        } else {
            let name = s.subrange(off + 2, name_end);
            let sync_idx = u16_at(s, name_end);
            if sync_idx > nsync {
                (None, None)
            } else {
                let rec = blank_record(name, sync_idx as u16);
                let o = name_end + 2;
                if o + 2 > s.len() {
                    (Some(rec), None)
                } else {
                    let layer_idx = u16_at(s, o);
                    if layer_idx > nlayer {
                        (Some(rec), None)
                    } else {
                        let rec = TopicRecordView { layer_index: layer_idx as u16, ..rec };
                        if o + 3 > s.len() {
                            (Some(rec), None)
                        } else if s[o + 2] > 1 {
                            (Some(rec), None)
                        } else {
                            let rec = TopicRecordView { clear: s[o + 2] == 1, ..rec };
                            if o + 7 > s.len() {
                                (Some(rec), None)
                            } else {
                                let rec = TopicRecordView {
                                    capacity: u32_at(s, o + 3) as u32,
                                    ..rec
                                };
                                if o + 11 > s.len() {
                                    (Some(rec), None)
                                } else {
                                    let rec = TopicRecordView {
                                        focus: u32_at(s, o + 7) as u32,
                                        ..rec
                                    };
                                    if o + 13 > s.len() {
                                        (Some(rec), None)
                                    } else {
                                        let nc = u16_at(s, o + 11);
                                        let ce = o + 13 + 5 * nc;
                                        if ce > s.len() {
                                            (Some(rec), None)
                                        } else {
                                            let rec = TopicRecordView {
                                                colors: colors_at(s, o + 13, nc),
                                                ..rec
                                            };
                                            if ce + 2 > s.len() {
                                                (Some(rec), None)
                                            } else {
                                                let nv = u16_at(s, ce);
                                                let vend = ce + 2 + 16 * nv;
                                                if vend > s.len() || !vertices_ok(s, ce + 2, nv) {
                                                    (Some(rec), None)
                                                } else {
                                                    let rec = TopicRecordView {
                                                        vertices: vertices_at(s, ce + 2, nv),
                                                        ..rec
                                                    };
                                                    (Some(rec), Some(vend))
                                                }
                                            }
                                        }
                                    }
                                }
                            }
                        }
                    }
                }
            }
        }
    }
}

/// A complete record consumes bytes.
pub proof fn lemma_topic_step_advances(s: Seq<u8>, off: int, nsync: int, nlayer: int)
    requires
        0 <= off,
    ensures
        match parse_topic_step(s, off, nsync, nlayer).1 {
            Some(next) => off < next <= s.len(),
            None => true,
        },
{
}

/// The topic records from `off` to the end of the buffer.
pub open spec fn parse_topics(s: Seq<u8>, off: int, nsync: int, nlayer: int) -> Seq<
    TopicRecordView,
>
    recommends
        0 <= off,
    decreases s.len() - off,
{
    if off < 0 {
        Seq::empty()
    } else {
        match parse_topic_step(s, off, nsync, nlayer) {
            (None, _) => Seq::empty(),
            (Some(rec), None) => seq![rec],
            (Some(rec), Some(next)) => {
                if off < next <= s.len() {
                    seq![rec] + parse_topics(s, next, nsync, nlayer)
                } else {
                    seq![rec]
                }
            },
        }
    }
}

/// An empty frame view carrying at most a camera.
pub open spec fn empty_frame(camera: Option<CameraUpdate>) -> FrameView {
    FrameView { camera, sync_sets: Seq::empty(), layers: Seq::empty(), topics: Seq::empty() }
}

/// What a buffer decodes to: the camera, then the sync table, then the
/// layer table, then topic records until the buffer ends; the first field
/// that does not fit ends the frame, keeping everything before it.
pub open spec fn spec_decode(s: Seq<u8>) -> FrameView {
    if s.len() < 16 {
        empty_frame(None)
    } else {
        let camera = CameraUpdate {
            x: u32_at(s, 0) as u32,
            y: u32_at(s, 4) as u32,
            scale_x: u32_at(s, 8) as u32,
            scale_y: u32_at(s, 12) as u32,
        };
        if !table_valid(s, 16, 8) {
            empty_frame(Some(camera))
        } else {
            let syncs = sync_entries(s, 16);
            let off1 = table_end(s, 16);
            if !table_valid(s, off1, 1) || !layers_ok(s, off1) {
                FrameView { topics: Seq::empty(), layers: Seq::empty(), ..empty_frame(
                    Some(camera),
                ) } // no layer table: only camera and sync groups apply
                    .spec_with_syncs(syncs)
            } else {
                let layers = layer_entries(s, off1);
                let off2 = table_end(s, off1);
                FrameView {
                    camera: Some(camera),
                    sync_sets: syncs,
                    layers,
                    topics: parse_topics(s, off2, syncs.len() as int, layers.len() as int),
                }
            }
        }
    }
}

impl FrameView {
    /// This view with its sync table replaced.
    pub open spec fn spec_with_syncs(self, syncs: Seq<(Seq<u8>, u64)>) -> FrameView {
        FrameView { sync_sets: syncs, ..self }
    }
}

/// Parses one table: the count, the tail offsets, and the packed entries,
/// handing back raw `(value offset, name)` pairs and the end offset.
#[verifier::rlimit(100)]
fn parse_table(buf: &Vec<u8>, off: usize, vlen: usize) -> (r: Option<(Vec<(usize, Vec<u8>)>, usize)>)
    requires
        vlen == 8 || vlen == 1,
    ensures
        r is Some <==> table_valid(buf@, off as int, vlen as int),
        r is Some ==> {
            let (entries, end) = r->Some_0;
            &&& end == table_end(buf@, off as int)
            &&& off <= end <= buf@.len()
            &&& entries@.len() == table_count(buf@, off as int)
            &&& forall|i: int|
                0 <= i < entries@.len() ==> (#[trigger] entries@[i]).0 == table_packed(
                    buf@,
                    off as int,
                ) + table_start(buf@, off as int, i) && entries@[i].0 + vlen <= buf@.len()
                    && entries@[i].1@ == table_name(buf@, off as int, vlen as int, i)
        },
{
    if buf.len() < 2 || off > buf.len() - 2 {
        return None;
    }
    let count = read_u16(buf, off) as usize;
    if 2 * count > buf.len() - off - 2 {
        return None;
    }
    let tails_end = off + 2 + 2 * count;
    let packed_len: usize = if count == 0 {
        0
    } else {
        read_u16(buf, off + 2 + 2 * (count - 1)) as usize
    };
    if packed_len > buf.len() - tails_end {
        return None;
    }
    let ghost s = buf@;
    let ghost offi = off as int;
    proof {
        assert(table_packed(s, offi) == tails_end);
        assert(table_end(s, offi) == tails_end + packed_len);
    }
    // validate the tail offsets
    let mut entries: Vec<(usize, Vec<u8>)> = Vec::new();
    let mut prev: usize = 0;
    let mut i: usize = 0;
    while i < count
        invariant
            i <= count,
            off + 2 + 2 * count <= buf.len(),
            count == table_count(s, offi),
            s == buf@,
            offi == off as int,
            tails_end == table_packed(s, offi),
            table_end(s, offi) == tails_end + packed_len,
            tails_end + packed_len <= buf.len(),
            vlen == 8 || vlen == 1,
            prev == table_start(s, offi, i as int),
            prev <= packed_len,
            i < count ==> prev == (if i == 0 {
                0int
            } else {
                table_tail(s, offi, i - 1)
            }),
            forall|j: int|
                0 <= j < i ==> #[trigger] table_tail(s, offi, j) >= table_start(s, offi, j) + vlen,
            forall|j: int| 0 <= j < i ==> #[trigger] table_tail(s, offi, j) <= packed_len,
            entries@.len() == i,
            forall|j: int|
                0 <= j < i ==> (#[trigger] entries@[j]).0 == table_packed(s, offi) + table_start(
                    s,
                    offi,
                    j,
                ) && entries@[j].0 + vlen <= buf@.len() && entries@[j].1@ == table_name(
                    s,
                    offi,
                    vlen as int,
                    j,
                ),
        decreases count - i,
    {
        let tail = read_u16(buf, off + 2 + 2 * i) as usize;
        proof {
            assert(table_tail(s, offi, i as int) == tail);
        }
        if tail < prev + vlen {
            proof {
                if table_valid(s, offi, vlen as int) {
                    assert(table_tail(s, offi, i as int) >= table_start(s, offi, i as int) + vlen);
                }
            }
            return None;
        }
        if tail > packed_len {
            proof {
                if i == count - 1 {
                    assert(table_tail(s, offi, count - 1) == packed_len);
                }
                if table_valid(s, offi, vlen as int) {
                    lemma_tails_monotone(s, offi, vlen as int, i as int, count - 1);
                    assert(table_tail(s, offi, count - 1) == packed_len);
                }
            }
            return None;
        }
        let name = copy_range(buf, tails_end + prev + vlen, tails_end + tail);
        proof {
            assert(name@ == table_name(s, offi, vlen as int, i as int));
        }
        entries.push((tails_end + prev, name));
        prev = tail;
        i += 1;
    }
    proof {
        if count > 0 {
            assert(table_tail(s, offi, count - 1) == packed_len);
        }
        assert(table_valid(s, offi, vlen as int));
    }
    Some((entries, tails_end + packed_len))
}

/// With coherent gaps, tail offsets never decrease.
proof fn lemma_tails_monotone(s: Seq<u8>, off: int, vlen: int, a: int, b: int)
    requires
        vlen >= 0,
        0 <= a <= b < table_count(s, off),
        forall|i: int|
            0 <= i < table_count(s, off) ==> #[trigger] table_tail(s, off, i) >= table_start(
                s,
                off,
                i,
            ) + vlen,
    ensures
        table_tail(s, off, a) <= table_tail(s, off, b),
    decreases b - a,
{
    if a < b {
        lemma_tails_monotone(s, off, vlen, a, b - 1);
        assert(table_tail(s, off, b) >= table_start(s, off, b) + vlen);
    }
}

/// Reads the sync-group table: the entries and the end offset, or none
/// where the table is missing or malformed.
#[verifier::rlimit(100)]
fn read_sync_table(buf: &Vec<u8>, off: usize) -> (r: Option<(Vec<SyncSetEntry>, usize)>)
    ensures
        r is Some <==> table_valid(buf@, off as int, 8),
        r is Some ==> {
            let (entries, end) = r->Some_0;
            &&& end == table_end(buf@, off as int)
            &&& off <= end <= buf@.len()
            &&& entries@.len() == sync_entries(buf@, off as int).len()
            &&& forall|i: int|
                0 <= i < entries@.len() ==> (#[trigger] entries@[i]).name@ == sync_entries(
                    buf@,
                    off as int,
                )[i].0 && entries@[i].life_time == sync_entries(buf@, off as int)[i].1
        },
{
    match parse_table(buf, off, 8) {
        None => None,
        Some((raw, end)) => {
            let ghost s = buf@;
            let mut entries: Vec<SyncSetEntry> = Vec::new();
            let mut k: usize = 0;
            while k < raw.len()
                invariant
                    k <= raw@.len(),
                    s == buf@,
                    table_valid(s, off as int, 8),
                    raw@.len() == table_count(s, off as int),
                    forall|i: int|
                        0 <= i < raw@.len() ==> (#[trigger] raw@[i]).0 == table_packed(
                            s,
                            off as int,
                        ) + table_start(s, off as int, i) && raw@[i].0 + 8 <= buf@.len()
                            && raw@[i].1@ == table_name(s, off as int, 8, i),
                    entries@.len() == k,
                    forall|i: int|
                        0 <= i < k ==> (#[trigger] entries@[i]).name@ == sync_entries(
                            s,
                            off as int,
                        )[i].0 && entries@[i].life_time == sync_entries(s, off as int)[i].1,
                decreases raw@.len() - k,
            {
                let life = read_u64(buf, raw[k].0);
                let name = copy_range(&raw[k].1, 0, raw[k].1.len());
                proof {
                    assert(name@ =~= raw@[k as int].1@);
                }
                entries.push(SyncSetEntry { name, life_time: life });
                k += 1;
            }
            Some((entries, end))
        },
    }
}

/// Reads the layer table: the entries and the end offset, or none where
/// the table is missing or malformed, a bad visibility byte included.
#[verifier::rlimit(100)]
fn read_layer_table(buf: &Vec<u8>, off: usize) -> (r: Option<(Vec<LayerEntry>, usize)>)
    ensures
        r is Some <==> table_valid(buf@, off as int, 1) && layers_ok(buf@, off as int),
        r is Some ==> {
            let (entries, end) = r->Some_0;
            &&& end == table_end(buf@, off as int)
            &&& off <= end <= buf@.len()
            &&& entries@.len() == layer_entries(buf@, off as int).len()
            &&& forall|i: int|
                0 <= i < entries@.len() ==> (#[trigger] entries@[i]).name@ == layer_entries(
                    buf@,
                    off as int,
                )[i].0 && entries@[i].visibility == layer_entries(buf@, off as int)[i].1
        },
{
    match parse_table(buf, off, 1) {
        None => None,
        Some((raw, end)) => {
            let ghost s = buf@;
            let mut entries: Vec<LayerEntry> = Vec::new();
            let mut k: usize = 0;
            while k < raw.len()
                invariant
                    k <= raw@.len(),
                    s == buf@,
                    table_valid(s, off as int, 1),
                    raw@.len() == table_count(s, off as int),
                    forall|i: int|
                        0 <= i < raw@.len() ==> (#[trigger] raw@[i]).0 == table_packed(
                            s,
                            off as int,
                        ) + table_start(s, off as int, i) && raw@[i].0 + 1 <= buf@.len()
                            && raw@[i].1@ == table_name(s, off as int, 1, i),
                    forall|i: int|
                        0 <= i < k ==> Visibility::spec_from_byte(
                            #[trigger] s[table_packed(s, off as int) + table_start(
                                s,
                                off as int,
                                i,
                            )],
                        ) is Some,
                    entries@.len() == k,
                    forall|i: int|
                        0 <= i < k ==> (#[trigger] entries@[i]).name@ == layer_entries(
                            s,
                            off as int,
                        )[i].0 && entries@[i].visibility == layer_entries(s, off as int)[i].1,
                decreases raw@.len() - k,
            {
                match Visibility::from_byte(buf[raw[k].0]) {
                    Some(vis) => {
                        let name = copy_range(&raw[k].1, 0, raw[k].1.len());
                        proof {
                            assert(name@ =~= raw@[k as int].1@);
                        }
                        entries.push(LayerEntry { name, visibility: vis });
                    },
                    None => {
                        proof {
                            assert(!layers_ok(s, off as int));
                        }
                        return None;
                    },
                }
                k += 1;
            }
            proof {
                assert(layers_ok(s, off as int));
            }
            Some((entries, end))
        },
    }
}

/// Decodes a whole frame from one datagram.
#[verifier::rlimit(100)]
pub fn parse_frame(buf: &Vec<u8>) -> (r: Frame)
    ensures
        r@ == spec_decode(buf@),
{
    let ghost s = buf@;
    let mut frame = Frame {
        camera: None,
        sync_sets: Vec::new(),
        layers: Vec::new(),
        topics: Vec::new(),
    };
    if buf.len() < 16 {
        proof {
            lemma_frame_view_empty(frame@, spec_decode(s));
        }
        return frame;
    }
    frame.camera = Some(
        CameraUpdate {
            x: read_u32(buf, 0),
            y: read_u32(buf, 4),
            scale_x: read_u32(buf, 8),
            scale_y: read_u32(buf, 12),
        },
    );
    // the sync-group table
    let off1 = match read_sync_table(buf, 16) {
        None => {
            proof {
                lemma_frame_view_empty(frame@, spec_decode(s));
            }
            return frame;
        },
        Some((entries, end)) => {
            frame.sync_sets = entries;
            end
        },
    };
    // the layer table
    let off2 = match read_layer_table(buf, off1) {
        None => {
            proof {
                lemma_frame_sync_only(frame@, spec_decode(s), s);
            }
            return frame;
        },
        Some((entries, end)) => {
            frame.layers = entries;
            end
        },
    };
    // the topic records
    let nsync = frame.sync_sets.len();
    let nlayer = frame.layers.len();
    let mut off = off2;
    let ghost nsynci = nsync as int;
    let ghost nlayeri = nlayer as int;
    proof {
        assert(spec_decode(s).topics == parse_topics(s, off2 as int, nsynci, nlayeri));
    }
    loop
        invariant
            s == buf@,
            off <= buf@.len(),
            nsynci == nsync as int,
            nlayeri == nlayer as int,
            spec_decode(s).camera == frame.camera,
            frame.sync_sets@.len() == spec_decode(s).sync_sets.len(),
            forall|i: int|
                0 <= i < frame.sync_sets@.len() ==> ((#[trigger] frame.sync_sets@[i]).name@, frame.sync_sets@[i].life_time) == spec_decode(s).sync_sets[i],
            frame.layers@.len() == spec_decode(s).layers.len(),
            forall|i: int|
                0 <= i < frame.layers@.len() ==> ((#[trigger] frame.layers@[i]).name@, frame.layers@[i].visibility) == spec_decode(s).layers[i],
            spec_decode(s).topics == Seq::new(frame.topics@.len(), |i: int| frame.topics@[i]@)
                + parse_topics(s, off as int, nsynci, nlayeri),
        decreases buf@.len() - off,
    {
        let (rec, next) = parse_topic_record(buf, off, nsync, nlayer);
        let ghost step = parse_topic_step(s, off as int, nsynci, nlayeri);
        proof {
            lemma_topic_step_advances(s, off as int, nsynci, nlayeri);
        }
        match rec {
            None => {
                proof {
                    assert(parse_topics(s, off as int, nsynci, nlayeri) =~= Seq::<
                        TopicRecordView,
                    >::empty());
                    lemma_topics_final(frame@, spec_decode(s));
                }
                return frame;
            },
            Some(r0) => {
                let ghost old_topics = frame.topics@;
                frame.topics.push(r0);
                proof {
                    assert(Seq::new(frame.topics@.len(), |i: int| frame.topics@[i]@) =~= Seq::new(
                        old_topics.len(),
                        |i: int| old_topics[i]@,
                    ).push(frame.topics@.last()@));
                }
                match next {
                    None => {
                        proof {
                            assert(parse_topics(s, off as int, nsynci, nlayeri) =~= seq![
                                step.0->Some_0,
                            ]);
                            lemma_topics_final(frame@, spec_decode(s));
                        }
                        return frame;
                    },
                    Some(n) => {
                        proof {
                            assert(parse_topics(s, off as int, nsynci, nlayeri) == seq![
                                step.0->Some_0,
                            ] + parse_topics(s, n as int, nsynci, nlayeri));
                            assert(Seq::new(frame.topics@.len(), |i: int| frame.topics@[i]@)
                                + parse_topics(s, n as int, nsynci, nlayeri) =~= Seq::new(
                                old_topics.len(),
                                |i: int| old_topics[i]@,
                            ) + parse_topics(s, off as int, nsynci, nlayeri));
                        }
                        off = n;
                    },
                }
            },
        }
    }
}

fn parse_topic_record(buf: &Vec<u8>, off: usize, nsync: usize, nlayer: usize) -> (r: (
    Option<TopicRecord>,
    Option<usize>,
))
    requires
        off <= buf.len(),
    ensures
        ({
            let step = parse_topic_step(buf@, off as int, nsync as int, nlayer as int);
            &&& match (r.0, step.0) {
                (Some(rec), Some(v)) => rec@ == v,
                (None, None) => true,
                _ => false,
            }
            &&& match (r.1, step.1) {
                (Some(n), Some(m)) => n == m,
                (None, None) => true,
                _ => false,
            }
        }),
{
    if buf.len() < 2 || off > buf.len() - 2 {
        return (None, None);
    }
    let nl = read_u16(buf, off) as usize;
    if nl > buf.len() - off - 2 || buf.len() - off - 2 - nl < 2 {
        return (None, None);
    }
    let name_end = off + 2 + nl;
    let name = copy_range(buf, off + 2, name_end);
    let sync_idx = read_u16(buf, name_end);
    if sync_idx as usize > nsync {
        return (None, None);
    }
    let mut rec = TopicRecord {
        name,
        sync_set_index: sync_idx,
        layer_index: 0,
        clear: false,
        capacity: 0,
        focus: 0,
        colors: Vec::new(),
        vertices: Vec::new(),
    };
    let o = name_end + 2;
    if buf.len() - o < 2 {
        return (Some(rec), None);
    }
    let layer_idx = read_u16(buf, o);
    if layer_idx as usize > nlayer {
        return (Some(rec), None);
    }
    rec.layer_index = layer_idx;
    if buf.len() - o < 3 {
        return (Some(rec), None);
    }
    let clear_byte = buf[o + 2];
    if clear_byte > 1 {
        return (Some(rec), None);
    }
    rec.clear = clear_byte == 1;
    if buf.len() - o < 7 {
        return (Some(rec), None);
    }
    rec.capacity = read_u32(buf, o + 3);
    if buf.len() - o < 11 {
        return (Some(rec), None);
    }
    rec.focus = read_u32(buf, o + 7);
    if buf.len() - o < 13 {
        return (Some(rec), None);
    }
    let nc = read_u16(buf, o + 11) as usize;
    if 5 * nc > buf.len() - (o + 13) {
        return (Some(rec), None);
    }
    let ce = o + 13 + 5 * nc;
    rec.colors = read_colors(buf, o + 13, nc);
    if buf.len() - ce < 2 {
        return (Some(rec), None);
    }
    let nv = read_u16(buf, ce) as usize;
    if 16 * nv > buf.len() - (ce + 2) {
        return (Some(rec), None);
    }
    let vend = ce + 2 + 16 * nv;
    match read_vertices(buf, ce + 2, nv) {
        Some(vs) => {
            rec.vertices = vs;
            (Some(rec), Some(vend))
        },
        None => (Some(rec), None),
    }
}

/// Reads a run of `(level, color)` pairs, 5 bytes each.
fn read_colors(buf: &Vec<u8>, at: usize, nc: usize) -> (r: Vec<(u8, u32)>)
    requires
        at + 5 * nc <= buf.len(),
    ensures
        r@ == colors_at(buf@, at as int, nc as int),
{
    let mut r: Vec<(u8, u32)> = Vec::new();
    let mut k: usize = 0;
    while k < nc
        invariant
            k <= nc,
            at + 5 * nc <= buf.len(),
            r@.len() == k,
            forall|j: int| 0 <= j < k ==> #[trigger] r@[j] == colors_at(buf@, at as int, nc as int)[j],
        decreases nc - k,
    {
        let level = buf[at + 5 * k];
        let color = read_u32(buf, at + 5 * k + 1);
        r.push((level, color));
        k += 1;
    }
    proof {
        assert(r@ =~= colors_at(buf@, at as int, nc as int));
    }
    r
}

/// Reads a run of 16-byte samples; none if any has an unknown shape byte.
fn read_vertices(buf: &Vec<u8>, at: usize, nv: usize) -> (r: Option<Vec<Vertex>>)
    requires
        at + 16 * nv <= buf.len(),
    ensures
        r is Some <==> vertices_ok(buf@, at as int, nv as int),
        r is Some ==> r->Some_0@ == vertices_at(buf@, at as int, nv as int),
{
    let mut vs: Vec<Vertex> = Vec::new();
    let mut k: usize = 0;
    while k < nv
        invariant
            k <= nv,
            at + 16 * nv <= buf.len(),
            vs@.len() == k,
            forall|j: int| 0 <= j < k ==> (#[trigger] vertex_at(buf@, at + 16 * j)) is Some,
            forall|j: int|
                0 <= j < k ==> #[trigger] vs@[j] == vertices_at(buf@, at as int, nv as int)[j],
        decreases nv - k,
    {
        match read_vertex(buf, at + 16 * k) {
            Some(v) => {
                vs.push(v);
            },
            None => {
                proof {
                    assert(!vertices_ok(buf@, at as int, nv as int)) by {
                        assert(vertex_at(buf@, at + 16 * (k as int)) is None);
                    }
                }
                return None;
            },
        }
        k += 1;
    }
    proof {
        assert(vertices_ok(buf@, at as int, nv as int));
        assert(vs@ =~= vertices_at(buf@, at as int, nv as int));
    }
    Some(vs)
}

/// Two frame views with empty tables and topics and equal cameras are
/// equal.
proof fn lemma_frame_view_empty(a: FrameView, b: FrameView)
    requires
        a.camera == b.camera,
        a.sync_sets.len() == 0,
        b.sync_sets.len() == 0,
        a.layers.len() == 0,
        b.layers.len() == 0,
        a.topics.len() == 0,
        b.topics.len() == 0,
    ensures
        a == b,
{
    assert(a.sync_sets =~= b.sync_sets);
    assert(a.layers =~= b.layers);
    assert(a.topics =~= b.topics);
}

/// A frame that stops after the sync table matches the decode of a buffer
/// whose layer table is missing or malformed.
proof fn lemma_frame_sync_only(a: FrameView, b: FrameView, s: Seq<u8>)
    requires
        a.camera == b.camera,
        a.layers.len() == 0,
        b.layers.len() == 0,
        a.topics.len() == 0,
        b.topics.len() == 0,
        a.sync_sets.len() == b.sync_sets.len(),
        forall|i: int| 0 <= i < a.sync_sets.len() ==> #[trigger] a.sync_sets[i] == b.sync_sets[i],
    ensures
        a == b,
{
    assert(a.sync_sets =~= b.sync_sets);
    assert(a.layers =~= b.layers);
    assert(a.topics =~= b.topics);
}

/// A fully accumulated frame matches the decode of the buffer.
proof fn lemma_topics_final(a: FrameView, b: FrameView)
    requires
        a.camera == b.camera,
        a.sync_sets.len() == b.sync_sets.len(),
        forall|i: int| 0 <= i < a.sync_sets.len() ==> #[trigger] a.sync_sets[i] == b.sync_sets[i],
        a.layers.len() == b.layers.len(),
        forall|i: int| 0 <= i < a.layers.len() ==> #[trigger] a.layers[i] == b.layers[i],
        a.topics.len() == b.topics.len(),
        forall|i: int| 0 <= i < a.topics.len() ==> #[trigger] a.topics[i] == b.topics[i],
    ensures
        a == b,
{
    assert(a.sync_sets =~= b.sync_sets);
    assert(a.layers =~= b.layers);
    assert(a.topics =~= b.topics);
}


/// The color table after a record's color list lands, and whether any
/// entry actually changed (which costs the render geometry).
pub open spec fn spec_apply_colors(m: Map<u8, u32>, changed: bool, cs: Seq<(u8, u32)>) -> (
    Map<u8, u32>,
    bool,
)
    decreases cs.len(),
{
    if cs.len() == 0 {
        (m, changed)
    } else {
        let (l, c) = cs[0];
        spec_apply_colors(
            m.insert(l, c),
            changed || !(m.contains_key(l) && m[l] == c),
            cs.skip(1),
        )
    }
}

/// The fold's changed flag never influences the resulting table.
proof fn lemma_apply_colors_changed_irrelevant(m: Map<u8, u32>, c1: bool, c2: bool, cs: Seq<(u8, u32)>)
    ensures
        spec_apply_colors(m, c1, cs).0 == spec_apply_colors(m, c2, cs).0,
    decreases cs.len(),
{
    if cs.len() > 0 {
        let m2 = m.insert(cs[0].0, cs[0].1);
        let delta = !(m.contains_key(cs[0].0) && m[cs[0].0] == cs[0].1);
        lemma_apply_colors_changed_irrelevant(m2, c1 || delta, c2 || delta, cs.skip(1));
    }
}

/// The layer-name set after a frame's layer table lands.
pub open spec fn spec_apply_layers(set: Seq<Seq<u8>>, es: Seq<(Seq<u8>, Visibility)>) -> Seq<
    Seq<u8>,
>
    decreases es.len(),
{
    if es.len() == 0 {
        set
    } else {
        let set1 = match es[0].1 {
            Visibility::NothingToDo => set,
            Visibility::Visible => if set.contains(es[0].0) {
                set
            } else {
                set.push(es[0].0)
            },
            Visibility::Invisible => set.remove_value(es[0].0),
        };
        spec_apply_layers(set1, es.skip(1))
    }
}


/// A topic created by its first reference, as the model sees it.
pub open spec fn fresh_topic_model(name: Seq<u8>) -> crate::figure::TopicModel {
    crate::figure::TopicModel {
        name,
        tag: Seq::empty(),
        cap: crate::content::DEFAULT_CAPACITY,
        focus: 0,
        entries: Seq::empty(),
        colors: Map::empty(),
    }
}

/// What one topic record does to the topics: the named topic (created on
/// first reference) takes the record's layer tag, clear, capacity, focus,
/// colors and samples, each zero or empty field leaving its attribute
/// unchanged.
pub open spec fn spec_apply_record_model(
    ms: Seq<crate::figure::TopicModel>,
    time: u64,
    rec: TopicRecordView,
    layer_name: Option<Seq<u8>>,
) -> Seq<crate::figure::TopicModel> {
    let ti = match crate::figure::find_topic_model(ms, rec.name) {
        Some(i) => i,
        None => ms.len() as int,
    };
    let ms1 = match crate::figure::find_topic_model(ms, rec.name) {
        Some(_) => ms,
        None => ms.push(fresh_topic_model(rec.name)),
    };
    let m = ms1[ti];
    let tag = if rec.layer_index != 0 {
        layer_name->Some_0
    } else {
        m.tag
    };
    let cap = if rec.capacity != 0 {
        rec.capacity as usize
    } else {
        m.cap
    };
    let focus = if rec.focus != 0 {
        rec.focus as usize
    } else {
        m.focus
    };
    let cleared = if rec.clear {
        Seq::<(u64, Vertex)>::empty()
    } else {
        crate::content::spec_keep_front(m.entries, cap as nat)
    };
    let entries = if rec.vertices.len() > 0 {
        crate::content::spec_keep_front(
            crate::content::spec_rev_pairs(time, rec.vertices) + cleared,
            cap as nat,
        )
    } else {
        cleared
    };
    let colors = spec_apply_colors(m.colors, false, rec.colors).0;
    ms1.update(ti, crate::figure::TopicModel { name: m.name, tag, cap, focus, entries, colors })
}

/// The topics after a frame's records land, in order; each record's layer
/// tag resolves against the frame's layer table.
pub open spec fn spec_apply_records(
    ms: Seq<crate::figure::TopicModel>,
    time: u64,
    layers: Seq<(Seq<u8>, Visibility)>,
    recs: Seq<TopicRecordView>,
) -> Seq<crate::figure::TopicModel>
    decreases recs.len(),
{
    if recs.len() == 0 {
        ms
    } else {
        let r = recs[0];
        let layer_name = if r.layer_index != 0 {
            Some(layers[r.layer_index - 1].0)
        } else {
            None
        };
        spec_apply_records(spec_apply_record_model(ms, time, r, layer_name), time, layers, recs.skip(1))
    }
}

/// What setting one group's age limit does to the groups.
pub open spec fn spec_set_life_model(
    gms: Seq<crate::figure::GroupModel>,
    name: Seq<u8>,
    life: u64,
) -> Seq<crate::figure::GroupModel> {
    match crate::figure::find_group_model(gms, name) {
        Some(i) => gms.update(i, crate::figure::GroupModel { life_time: life, ..gms[i] }),
        None => gms.push(
            crate::figure::GroupModel { name, members: Seq::empty(), life_time: life },
        ),
    }
}

/// The groups after a frame's sync table lands: each entry with a nonzero
/// age limit sets its group's, and zero changes nothing.
pub open spec fn spec_apply_lifetimes(
    gms: Seq<crate::figure::GroupModel>,
    entries: Seq<(Seq<u8>, u64)>,
) -> Seq<crate::figure::GroupModel>
    decreases entries.len(),
{
    if entries.len() == 0 {
        gms
    } else {
        let gms1 = if entries[0].1 != 0 {
            spec_set_life_model(gms, entries[0].0, entries[0].1)
        } else {
            gms
        };
        spec_apply_lifetimes(gms1, entries.skip(1))
    }
}

/// What reassigning one topic's group does to the groups: the topic leaves
/// every member list, and joins the named group (created on demand) unless
/// the name is the empty sentinel.
pub open spec fn spec_reassign_model(
    gms: Seq<crate::figure::GroupModel>,
    set: Seq<u8>,
    topic: Seq<u8>,
) -> Seq<crate::figure::GroupModel> {
    let removed = Seq::new(
        gms.len(),
        |i: int| crate::figure::GroupModel { members: gms[i].members.remove_value(topic), ..gms[i] },
    );
    if set.len() == 0 {
        removed
    } else {
        match crate::figure::find_group_model(removed, set) {
            Some(g) => removed.update(
                g,
                crate::figure::GroupModel { members: removed[g].members.push(topic), ..removed[g] },
            ),
            None => removed.push(
                crate::figure::GroupModel { name: set, members: seq![topic], life_time: 0 },
            ),
        }
    }
}

/// The group memberships after a frame's records land: each record with a
/// nonzero group index reassigns its topic, and zero changes nothing.
pub open spec fn spec_apply_memberships(
    gms: Seq<crate::figure::GroupModel>,
    syncs: Seq<(Seq<u8>, u64)>,
    recs: Seq<TopicRecordView>,
) -> Seq<crate::figure::GroupModel>
    decreases recs.len(),
{
    if recs.len() == 0 {
        gms
    } else {
        let r = recs[0];
        let gms1 = if r.sync_set_index != 0 {
            spec_reassign_model(gms, syncs[r.sync_set_index - 1].0, r.name)
        } else {
            gms
        };
        spec_apply_memberships(gms1, syncs, recs.skip(1))
    }
}

/// Applies one decoded topic record to the scene at `time`. `layer_name`
/// must be the name the record's layer index picks from the frame's table,
/// where the index is nonzero.
pub fn apply_topic_record(
    figure: &mut crate::figure::Figure,
    time: u64,
    rec: &TopicRecord,
    layer_name: Option<&Vec<u8>>,
) -> (ti: usize)
    requires
        old(figure).wf(),
        rec.layer_index != 0 <==> layer_name is Some,
        rec.capacity != 0 ==> rec.capacity >= 1,
        forall|i: int|
            0 <= i < old(figure).topics@.len() && (#[trigger] old(figure).topics@[i]).content.entries().len() > 0 ==> time >= old(figure).topics@[i].content.entries()[0].0,
    ensures
        final(figure).wf(),
        final(figure).auto_view == old(figure).auto_view,
        final(figure).print_time == old(figure).print_time,
        final(figure).view == old(figure).view,
        final(figure).visible_layers@ == old(figure).visible_layers@,
        final(figure).sync_sets@ == old(figure).sync_sets@,
        ti < final(figure).topics@.len(),
        final(figure).topics@[ti as int].name@ == rec.name@,
        ti < old(figure).topics@.len() ==> old(figure).topics@[ti as int].name@ == rec.name@,
        ti >= old(figure).topics@.len() ==> ti == old(figure).topics@.len(),
        forall|i: int|
            0 <= i < old(figure).topics@.len() && i != ti ==> #[trigger] final(figure).topics@[i] == old(figure).topics@[i],
        final(figure).topics@.len() == if crate::figure::spec_find_topic(
            old(figure).topics@,
            rec.name@,
        ) is Some {
            old(figure).topics@.len()
        } else {
            old(figure).topics@.len() + 1
        },
        ({
            let c = final(figure).topics@[ti as int].content;
            let old_entries = match crate::figure::spec_find_topic(
                old(figure).topics@,
                rec.name@,
            ) {
                Some(j) => old(figure).topics@[j].content.entries(),
                None => Seq::<(u64, Vertex)>::empty(),
            };
            let old_cap = match crate::figure::spec_find_topic(old(figure).topics@, rec.name@) {
                Some(j) => old(figure).topics@[j].content.cap(),
                None => crate::content::DEFAULT_CAPACITY,
            };
            let cap = if rec.capacity != 0 {
                rec.capacity as usize
            } else {
                old_cap
            };
            let cleared = if rec.clear {
                Seq::<(u64, Vertex)>::empty()
            } else {
                crate::content::spec_keep_front(old_entries, cap as nat)
            };
            let old_tag = match crate::figure::spec_find_topic(old(figure).topics@, rec.name@) {
                Some(j) => old(figure).topics@[j].content.tag(),
                None => Seq::<u8>::empty(),
            };
            let old_focus = match crate::figure::spec_find_topic(old(figure).topics@, rec.name@) {
                Some(j) => old(figure).topics@[j].content.cache_state().focus_len,
                None => 0usize,
            };
            &&& c.cap() == cap
            &&& c.tag() == (if rec.layer_index != 0 {
                layer_name->Some_0@
            } else {
                old_tag
            })
            &&& c.cache_state().focus_len == (if rec.focus != 0 {
                rec.focus as usize
            } else {
                old_focus
            })
            &&& c.entries() == (if rec.vertices@.len() > 0 {
                crate::content::spec_keep_front(
                    crate::content::spec_rev_pairs(time, rec.vertices@) + cleared,
                    cap as nat,
                )
            } else {
                cleared
            })
            &&& ({
                let old_colors = match crate::figure::spec_find_topic(
                    old(figure).topics@,
                    rec.name@,
                ) {
                    Some(j) => old(figure).topics@[j].content.colors(),
                    None => Map::<u8, u32>::empty(),
                };
                c.colors() == spec_apply_colors(old_colors, false, rec.colors@).0
            })
        }),
        crate::figure::topics_model(final(figure).topics@) == spec_apply_record_model(
            crate::figure::topics_model(old(figure).topics@),
            time,
            rec@,
            match layer_name {
                Some(v) => Some(v@),
                None => None,
            },
        ),
{
    let ti = figure.put_topic(&rec.name);
    proof {
        crate::figure::lemma_find_topic(old(figure).topics@, rec.name@);
    }
    if let Some(layer) = layer_name {
        figure.topics[ti].content.set_layer(layer.clone());
    }
    if rec.clear {
        figure.topics[ti].content.clear();
    }
    if rec.capacity != 0 {
        figure.topics[ti].content.set_capacity(rec.capacity as usize);
    }
    if rec.focus != 0 {
        figure.topics[ti].content.set_focus(rec.focus as usize);
    }
    let mut k: usize = 0;
    let ghost pre = *figure;
    let ghost colors0 = figure.topics@[ti as int].content.colors();
    proof {
        assert(rec.colors@.skip(0) =~= rec.colors@);
    }
    while k < rec.colors.len()
        invariant
            old(figure).wf(),
            k <= rec.colors@.len(),
            colors0 == pre.topics@[ti as int].content.colors(),
            spec_apply_colors(
                figure.topics@[ti as int].content.colors(),
                false,
                rec.colors@.skip(k as int),
            ).0 == spec_apply_colors(colors0, false, rec.colors@).0,
            ti < figure.topics@.len(),
            figure.topics@.len() == pre.topics@.len(),
            forall|i: int|
                0 <= i < figure.topics@.len() && i != ti ==> #[trigger] figure.topics@[i]
                    == pre.topics@[i],
            figure.topics@[ti as int].name == pre.topics@[ti as int].name,
            figure.topics@[ti as int].content.wf(),
            figure.topics@[ti as int].content.entries() == pre.topics@[ti as int].content.entries(),
            figure.topics@[ti as int].content.cap() == pre.topics@[ti as int].content.cap(),
            figure.topics@[ti as int].content.tag() == pre.topics@[ti as int].content.tag(),
            figure.topics@[ti as int].content.cache_state().focus_len == pre.topics@[
                ti as int
            ].content.cache_state().focus_len,
            figure.topics@[ti as int].content.cache_state().bound == pre.topics@[
                ti as int
            ].content.cache_state().bound,
            figure.auto_view == pre.auto_view,
            figure.print_time == pre.print_time,
            figure.view == pre.view,
            figure.visible_layers@ == pre.visible_layers@,
            figure.sync_sets@ == pre.sync_sets@,
            forall|i: int| 0 <= i < figure.topics@.len() ==> (#[trigger] figure.topics@[i]).content.wf(),
            forall|i: int, j: int|
                0 <= i < j < figure.topics@.len() ==> (#[trigger] figure.topics@[i]).name@ != (
                #[trigger] figure.topics@[j]).name@,
        decreases rec.colors@.len() - k,
    {
        proof {
            assert(rec.colors@.skip(k as int)[0] == rec.colors@[k as int]);
            assert(rec.colors@.skip(k as int).skip(1) =~= rec.colors@.skip(k + 1));
            lemma_apply_colors_changed_irrelevant(
                figure.topics@[ti as int].content.colors().insert(
                    rec.colors@[k as int].0,
                    rec.colors@[k as int].1,
                ),
                true,
                false,
                rec.colors@.skip(k + 1),
            );
        }
        let (level, color) = rec.colors[k];
        figure.topics[ti].content.set_color(level, color);
        k += 1;
    }
    proof {
        assert(rec.colors@.skip(rec.colors@.len() as int) =~= Seq::<(u8, u32)>::empty());
    }
    if rec.vertices.len() > 0 {
        figure.topics[ti].content.extend_from_slice(time, &rec.vertices);
    }
    proof {
        crate::figure::lemma_find_topic(old(figure).topics@, rec@.name);
        crate::figure::lemma_find_topic_model(old(figure).topics@, rec@.name);
        let ms0 = crate::figure::topics_model(old(figure).topics@);
        let lname: Option<Seq<u8>> = match layer_name {
            Some(v) => Some(v@),
            None => None,
        };
        let after = spec_apply_record_model(ms0, time, rec@, lname);
        let ms1 = match crate::figure::find_topic_model(ms0, rec@.name) {
            Some(_) => ms0,
            None => ms0.push(fresh_topic_model(rec@.name)),
        };
        assert(after.len() == ms1.len());
        assert(crate::figure::topics_model(figure.topics@) =~= after) by {
            assert forall|j: int|
                0 <= j < after.len() && j != ti implies #[trigger] crate::figure::topics_model(
                figure.topics@,
            )[j] == after[j] by {
                assert(figure.topics@[j] == old(figure).topics@[j]);
                assert(ms1[j] == ms0[j]);
                assert(after[j] == ms1[j]);
            }
            assert(crate::figure::topics_model(figure.topics@)[ti as int] == after[ti as int]);
        }
    }
    ti
}


/// The decoded sync-group table, as the scene consumes it.
pub struct SyncSets(pub Vec<SyncSetEntry>);

impl SyncSets {
    /// Number of sync groups the frame names.
    pub fn len(&self) -> (r: usize)
        ensures
            r == self.0@.len(),
    {
        self.0.len()
    }

    /// The i-th table entry.
    pub fn get(&self, i: usize) -> (r: &SyncSetEntry)
        requires
            i < self.0@.len(),
        ensures
            r == self.0@[i as int],
    {
        &self.0[i]
    }
}

/// The decoded layer table, as the scene consumes it.
pub struct Layers(pub Vec<LayerEntry>);

impl Layers {
    /// Number of layers the frame names.
    pub fn len(&self) -> (r: usize)
        ensures
            r == self.0@.len(),
    {
        self.0.len()
    }

    /// The i-th table entry.
    pub fn get(&self, i: usize) -> (r: &LayerEntry)
        requires
            i < self.0@.len(),
        ensures
            r == self.0@[i as int],
    {
        &self.0[i]
    }
}

/// Every timestamp in the scene is at most `time`: the arrival clock is
/// monotone.
pub open spec fn time_fresh(figure: crate::figure::Figure, time: u64) -> bool {
    forall|i: int|
        0 <= i < figure.topics@.len() && (#[trigger] figure.topics@[i]).content.entries().len() > 0
            ==> time >= figure.topics@[i].content.entries()[0].0
}

/// A decoded frame's table references are in range.
pub open spec fn frame_indices_ok(frame: FrameView) -> bool {
    forall|i: int|
        0 <= i < frame.topics.len() ==> (#[trigger] frame.topics[i]).sync_set_index
            <= frame.sync_sets.len() && frame.topics[i].layer_index <= frame.layers.len()
}

/// Applies a decoded frame to the scene: the camera, then the sync groups'
/// age limits, then the layer visibilities, then each topic record in
/// order.
pub fn apply_frame(figure: &mut crate::figure::Figure, time: u64, frame: &Frame)
    requires
        old(figure).wf(),
        time_fresh(*old(figure), time),
        frame_indices_ok(frame@),
    ensures
        final(figure).wf(),
        time_fresh(*final(figure), time),
        final(figure).print_time == old(figure).print_time,
        match frame.camera {
            Some(c) => (final(figure).view, final(figure).auto_view) == crate::figure::spec_set_view(old(figure).view, old(figure).auto_view, c.x, c.y, c.scale_x, c.scale_y),
            None => final(figure).view == old(figure).view && final(figure).auto_view == old(figure).auto_view,
        },
        final(figure).visible_layers.deep_view() == spec_apply_layers(old(figure).visible_layers.deep_view(), frame@.layers),
        forall|k: int|
            0 <= k < frame@.topics.len() ==> crate::figure::spec_find_topic(final(figure).topics@, (#[trigger] frame@.topics[k]).name) is Some,
        crate::figure::topics_model(final(figure).topics@) == spec_apply_records(
            crate::figure::topics_model(old(figure).topics@),
            time,
            frame@.layers,
            frame@.topics,
        ),
        crate::figure::groups_model(final(figure).sync_sets@) == spec_apply_memberships(
            spec_apply_lifetimes(
                crate::figure::groups_model(old(figure).sync_sets@),
                frame@.sync_sets,
            ),
            frame@.sync_sets,
            frame@.topics,
        ),
{
    if let Some(c) = &frame.camera {
        figure.set_view(c.x, c.y, c.scale_x, c.scale_y);
        proof {
            assert(crate::figure::topics_model(figure.topics@) =~= crate::figure::topics_model(
                old(figure).topics@,
            )) by {
                if figure.view != old(figure).view {
                    assert forall|i: int|
                        0 <= i < figure.topics@.len() implies #[trigger] crate::figure::topics_model(figure.topics@)[i] == crate::figure::topics_model(old(figure).topics@)[i] by {
                        assert(crate::figure::spec_same_redrawn(
                            old(figure).topics@[i].content,
                            figure.topics@[i].content,
                        ));
                    }
                }
            }
        }
    }
    apply_sync_lifetimes(figure, frame);
    apply_layer_table(figure, frame);
    apply_topic_records(figure, time, frame);
}

/// Applies the frame's nonzero group age limits; a zero limit changes
/// nothing.
fn apply_sync_lifetimes(figure: &mut crate::figure::Figure, frame: &Frame)
    requires
        old(figure).wf(),
    ensures
        final(figure).wf(),
        final(figure).topics@ == old(figure).topics@,
        final(figure).visible_layers@ == old(figure).visible_layers@,
        final(figure).auto_view == old(figure).auto_view,
        final(figure).print_time == old(figure).print_time,
        final(figure).view == old(figure).view,
        crate::figure::groups_model(final(figure).sync_sets@) == spec_apply_lifetimes(
            crate::figure::groups_model(old(figure).sync_sets@),
            frame@.sync_sets,
        ),
{
    let ghost es = frame@.sync_sets;
    proof {
        assert(es.skip(0) =~= es);
    }
    let mut k: usize = 0;
    while k < frame.sync_sets.len()
        invariant
            k <= frame.sync_sets@.len(),
            es == frame@.sync_sets,
            figure.wf(),
            figure.topics@ == old(figure).topics@,
            figure.visible_layers@ == old(figure).visible_layers@,
            figure.auto_view == old(figure).auto_view,
            figure.print_time == old(figure).print_time,
            figure.view == old(figure).view,
            spec_apply_lifetimes(crate::figure::groups_model(figure.sync_sets@), es.skip(k as int))
                == spec_apply_lifetimes(crate::figure::groups_model(old(figure).sync_sets@), es),
        decreases frame.sync_sets@.len() - k,
    {
        proof {
            assert(es.skip(k as int)[0] == es[k as int]);
            assert(es.skip(k as int).skip(1) =~= es.skip(k + 1));
            assert(es[k as int] == (frame.sync_sets@[k as int].name@, frame.sync_sets@[
                k as int
            ].life_time));
        }
        if frame.sync_sets[k].life_time != 0 {
            let ghost pre = figure.sync_sets@;
            let ghost nm = frame.sync_sets@[k as int].name@;
            let ghost lf = frame.sync_sets@[k as int].life_time;
            figure.set_life_time(&frame.sync_sets[k].name, frame.sync_sets[k].life_time);
            proof {
                crate::figure::lemma_find_group(pre, nm);
                crate::figure::lemma_find_group_model(pre, nm);
                let gm0 = crate::figure::groups_model(pre);
                assert(crate::figure::groups_model(figure.sync_sets@) =~= spec_set_life_model(
                    gm0,
                    nm,
                    lf,
                )) by {
                    match crate::figure::spec_find_group(pre, nm) {
                        Some(i) => {
                            assert forall|j: int|
                                0 <= j < pre.len() && j != i implies #[trigger] crate::figure::groups_model(figure.sync_sets@)[j] == gm0[j] by {
                                assert(figure.sync_sets@[j] == pre[j]);
                            }
                            assert(crate::figure::groups_model(figure.sync_sets@)[i]
                                == crate::figure::GroupModel { life_time: lf, ..gm0[i] });
                        },
                        None => {
                            assert forall|j: int|
                                0 <= j < pre.len() implies #[trigger] crate::figure::groups_model(figure.sync_sets@)[j] == gm0[j] by {
                                assert(figure.sync_sets@.take(pre.len() as int)[j]
                                    == figure.sync_sets@[j]);
                                assert(figure.sync_sets@[j] == pre[j]);
                            }
                            assert(figure.sync_sets@.last().members.deep_view() =~= Seq::<
                                Seq<u8>,
                            >::empty());
                            assert(crate::figure::groups_model(figure.sync_sets@)[pre.len() as int]
                                == crate::figure::GroupModel {
                                name: nm,
                                members: Seq::empty(),
                                life_time: lf,
                            });
                        },
                    }
                }
            }
        }
        k += 1;
    }
    proof {
        assert(es.skip(es.len() as int) =~= Seq::<(Seq<u8>, u64)>::empty());
    }
}

/// Applies the frame's layer visibilities.
fn apply_layer_table(figure: &mut crate::figure::Figure, frame: &Frame)
    requires
        old(figure).wf(),
    ensures
        final(figure).wf(),
        final(figure).topics@ == old(figure).topics@,
        final(figure).sync_sets@ == old(figure).sync_sets@,
        final(figure).auto_view == old(figure).auto_view,
        final(figure).print_time == old(figure).print_time,
        final(figure).view == old(figure).view,
        final(figure).visible_layers.deep_view() == spec_apply_layers(old(figure).visible_layers.deep_view(), frame@.layers),
{
    let ghost es = frame@.layers;
    proof {
        assert(es.skip(0) =~= es);
    }
    let mut k: usize = 0;
    while k < frame.layers.len()
        invariant
            k <= frame.layers@.len(),
            es == frame@.layers,
            figure.wf(),
            figure.topics@ == old(figure).topics@,
            figure.sync_sets@ == old(figure).sync_sets@,
            figure.auto_view == old(figure).auto_view,
            figure.print_time == old(figure).print_time,
            figure.view == old(figure).view,
            spec_apply_layers(figure.visible_layers.deep_view(), es.skip(k as int))
                == spec_apply_layers(old(figure).visible_layers.deep_view(), es),
        decreases frame.layers@.len() - k,
    {
        proof {
            assert(es.skip(k as int)[0] == es[k as int]);
            assert(es.skip(k as int).skip(1) =~= es.skip(k + 1));
            assert(es[k as int] == (frame.layers@[k as int].name@, frame.layers@[
                k as int
            ].visibility));
        }
        match frame.layers[k].visibility {
            Visibility::NothingToDo => {},
            Visibility::Visible => {
                figure.set_visible(&frame.layers[k].name, true);
            },
            Visibility::Invisible => {
                figure.set_visible(&frame.layers[k].name, false);
            },
        }
        k += 1;
    }
    proof {
        assert(es.skip(es.len() as int) =~= Seq::<(Seq<u8>, Visibility)>::empty());
    }
}

/// Applies the frame's topic records in order.
fn apply_topic_records(figure: &mut crate::figure::Figure, time: u64, frame: &Frame)
    requires
        old(figure).wf(),
        time_fresh(*old(figure), time),
        frame_indices_ok(frame@),
    ensures
        final(figure).wf(),
        time_fresh(*final(figure), time),
        final(figure).visible_layers@ == old(figure).visible_layers@,
        final(figure).auto_view == old(figure).auto_view,
        final(figure).print_time == old(figure).print_time,
        final(figure).view == old(figure).view,
        forall|k: int|
            0 <= k < frame@.topics.len() ==> crate::figure::spec_find_topic(final(figure).topics@, (#[trigger] frame@.topics[k]).name) is Some,
        crate::figure::topics_model(final(figure).topics@) == spec_apply_records(
            crate::figure::topics_model(old(figure).topics@),
            time,
            frame@.layers,
            frame@.topics,
        ),
        crate::figure::groups_model(final(figure).sync_sets@) == spec_apply_memberships(
            crate::figure::groups_model(old(figure).sync_sets@),
            frame@.sync_sets,
            frame@.topics,
        ),
{
    let ghost rs = frame@.topics;
    proof {
        assert(rs.skip(0) =~= rs);
    }
    let mut k: usize = 0;
    while k < frame.topics.len()
        invariant
            k <= frame.topics@.len(),
            rs == frame@.topics,
            frame_indices_ok(frame@),
            figure.wf(),
            time_fresh(*figure, time),
            figure.visible_layers@ == old(figure).visible_layers@,
            figure.auto_view == old(figure).auto_view,
            figure.print_time == old(figure).print_time,
            figure.view == old(figure).view,
            forall|j: int|
                0 <= j < k ==> crate::figure::spec_find_topic(figure.topics@, (#[trigger] frame@.topics[j]).name) is Some,
            spec_apply_records(crate::figure::topics_model(figure.topics@), time, frame@.layers, rs.skip(k as int)) == spec_apply_records(crate::figure::topics_model(old(figure).topics@), time, frame@.layers, rs),
            spec_apply_memberships(crate::figure::groups_model(figure.sync_sets@), frame@.sync_sets, rs.skip(k as int)) == spec_apply_memberships(crate::figure::groups_model(old(figure).sync_sets@), frame@.sync_sets, rs),
        decreases frame.topics@.len() - k,
    {
        let rec = &frame.topics[k];
        let ghost start = *figure;
        proof {
            assert(frame@.topics[k as int] == frame.topics@[k as int]@);
            assert(rs.skip(k as int)[0] == rs[k as int]);
            assert(rs.skip(k as int).skip(1) =~= rs.skip(k + 1));
        }
        if rec.sync_set_index != 0 {
            let gi = (rec.sync_set_index - 1) as usize;
            let ghost gpre = start.sync_sets@;
            let ghost setname = frame@.sync_sets[gi as int].0;
            proof {
                assert(frame.sync_sets@[gi as int].name@ == setname);
                assert(forall|a: int, b: int|
                    0 <= a < b < gpre.len() ==> (#[trigger] gpre[a]).name@ != (
                    #[trigger] gpre[b]).name@);
            }
            figure.update_sync_set(&frame.sync_sets[gi].name, &rec.name);
            proof {
                let tn = rec@.name;
                let gm0 = crate::figure::groups_model(gpre);
                let removed = Seq::new(
                    gm0.len(),
                    |i: int| crate::figure::GroupModel {
                        members: gm0[i].members.remove_value(tn),
                        ..gm0[i]
                    },
                );
                let post = crate::figure::groups_model(figure.sync_sets@);
                crate::figure::lemma_find_group(gpre, setname);
                crate::figure::lemma_find_group_model(gpre, setname);
                assert(crate::figure::find_group_model(removed, setname)
                    == crate::figure::spec_find_group(gpre, setname)) by {
                    crate::figure::lemma_find_group_model_same_names(
                        removed,
                        crate::figure::groups_model(gpre),
                        setname,
                    );
                }
                if setname.len() == 0 {
                    assert(post =~= removed) by {
                        assert forall|j: int| 0 <= j < gpre.len() implies #[trigger] post[j]
                            == removed[j] by {
                            assert(figure.sync_sets@[j].name == gpre[j].name);
                            assert(figure.sync_sets@[j].members.deep_view()
                                == gpre[j].members.deep_view().remove_value(tn));
                        }
                    }
                } else {
                    match crate::figure::spec_find_group(gpre, setname) {
                        Some(g) => {
                            assert(post =~= removed.update(
                                g,
                                crate::figure::GroupModel {
                                    members: removed[g].members.push(tn),
                                    ..removed[g]
                                },
                            )) by {
                                assert forall|j: int|
                                    0 <= j < gpre.len() && j != g implies #[trigger] post[j]
                                    == removed[j] by {
                                    assert(gpre[j].name@ != setname) by {
                                        if gpre[j].name@ == setname {
                                            if j < g {
                                                assert((gpre[j]).name@ != (gpre[g]).name@);
                                            } else {
                                                assert((gpre[g]).name@ != (gpre[j]).name@);
                                            }
                                        }
                                    }
                                    assert(figure.sync_sets@[j].members.deep_view()
                                        == gpre[j].members.deep_view().remove_value(tn));
                                }
                                assert(post[g] == crate::figure::GroupModel {
                                    members: removed[g].members.push(tn),
                                    ..removed[g]
                                });
                            }
                        },
                        None => {
                            assert(post =~= removed.push(
                                crate::figure::GroupModel {
                                    name: setname,
                                    members: seq![tn],
                                    life_time: 0,
                                },
                            )) by {
                                assert forall|j: int| 0 <= j < gpre.len() implies #[trigger] post[j]
                                    == removed[j] by {
                                    assert(gpre[j].name@ != setname);
                                    assert(figure.sync_sets@[j].members.deep_view()
                                        == gpre[j].members.deep_view().remove_value(tn));
                                }
                                assert(post[gpre.len() as int] == crate::figure::GroupModel {
                                    name: setname,
                                    members: seq![tn],
                                    life_time: 0,
                                });
                            }
                        },
                    }
                }
                assert(post == spec_reassign_model(gm0, setname, tn));
            }
        }
        let layer_name: Option<&Vec<u8>> = if rec.layer_index != 0 {
            Some(&frame.layers[(rec.layer_index - 1) as usize].name)
        } else {
            None
        };
        proof {
            if rec.layer_index != 0 {
                assert(frame.layers@[rec.layer_index - 1].name@ == frame@.layers[
                    rec.layer_index - 1
                ].0);
            }
        }
        let ghost pre = *figure;
        let ti = apply_topic_record(figure, time, rec, layer_name);
        proof {
            crate::figure::lemma_find_topic(figure.topics@, rec.name@);
            assert forall|j: int|
                0 <= j <= k implies crate::figure::spec_find_topic(figure.topics@, (#[trigger] frame@.topics[j]).name) is Some by {
                crate::figure::lemma_find_topic(figure.topics@, frame@.topics[j].name);
                if j < k {
                    crate::figure::lemma_find_topic(pre.topics@, frame@.topics[j].name);
                    let fi = crate::figure::spec_find_topic(pre.topics@, frame@.topics[j].name);
                    if fi->Some_0 == ti {
                        assert(figure.topics@[ti as int].name@ == frame@.topics[j].name);
                    } else {
                        assert(figure.topics@[fi->Some_0] == pre.topics@[fi->Some_0]);
                    }
                } else {
                    assert(figure.topics@[ti as int].name@ == frame@.topics[j].name);
                }
            }
            assert(time_fresh(*figure, time)) by {
                assert forall|i: int|
                    0 <= i < figure.topics@.len() && (#[trigger] figure.topics@[i]).content.entries().len() > 0 implies time >= figure.topics@[i].content.entries()[0].0 by {
                    if i < pre.topics@.len() && i != ti {
                        assert(figure.topics@[i] == pre.topics@[i]);
                    } else {
                        assert(i == ti) by {
                            crate::figure::lemma_find_topic(pre.topics@, rec@.name);
                            if i != ti {
                                assert(i >= pre.topics@.len());
                                match crate::figure::spec_find_topic(pre.topics@, rec@.name) {
                                    Some(_) => {
                                        assert(figure.topics@.len() == pre.topics@.len());
                                    },
                                    None => {
                                        if (ti as int) < pre.topics@.len() {
                                            assert(pre.topics@[ti as int].name@ == rec@.name);
                                        }
                                        assert(figure.topics@.len() == pre.topics@.len() + 1);
                                    },
                                }
                            }
                        }
                        let c = figure.topics@[ti as int].content;
                        let old_entries = match crate::figure::spec_find_topic(pre.topics@, rec@.name) {
                            Some(j) => pre.topics@[j].content.entries(),
                            None => Seq::<(u64, Vertex)>::empty(),
                        };
                        let cap = if rec@.capacity != 0 {
                            rec@.capacity as usize
                        } else {
                            match crate::figure::spec_find_topic(pre.topics@, rec@.name) {
                                Some(j) => pre.topics@[j].content.cap(),
                                None => crate::content::DEFAULT_CAPACITY,
                            }
                        };
                        let cleared = if rec@.clear {
                            Seq::<(u64, Vertex)>::empty()
                        } else {
                            crate::content::spec_keep_front(old_entries, cap as nat)
                        };
                        crate::figure::lemma_find_topic(pre.topics@, rec@.name);
                        assert(cleared.len() > 0 ==> cleared[0] == old_entries[0]);
                        if rec@.vertices.len() > 0 {
                            lemma_rev_pairs_times(time, rec@.vertices);
                            let joined = crate::content::spec_rev_pairs(time, rec@.vertices)
                                + cleared;
                            assert(c.entries().len() > 0 ==> c.entries()[0] == joined[0]);
                            assert(joined[0] == crate::content::spec_rev_pairs(
                                time,
                                rec@.vertices,
                            )[0]);
                        }
                    }
                }
            }
        }
        proof {
            let r = rs[k as int];
            let lname_spec: Option<Seq<u8>> = if r.layer_index != 0 {
                Some(frame@.layers[r.layer_index - 1].0)
            } else {
                None
            };
            assert(pre.topics@ == start.topics@);
            assert(figure.sync_sets@ == pre.sync_sets@);
            assert(crate::figure::topics_model(figure.topics@) == spec_apply_record_model(
                crate::figure::topics_model(start.topics@),
                time,
                r,
                lname_spec,
            ));
            assert(spec_apply_records(
                crate::figure::topics_model(start.topics@),
                time,
                frame@.layers,
                rs.skip(k as int),
            ) == spec_apply_records(
                crate::figure::topics_model(figure.topics@),
                time,
                frame@.layers,
                rs.skip(k + 1),
            ));
            assert(crate::figure::groups_model(figure.sync_sets@) == (if r.sync_set_index != 0 {
                spec_reassign_model(
                    crate::figure::groups_model(start.sync_sets@),
                    frame@.sync_sets[r.sync_set_index - 1].0,
                    r.name,
                )
            } else {
                crate::figure::groups_model(start.sync_sets@)
            }));
            assert(spec_apply_memberships(
                crate::figure::groups_model(start.sync_sets@),
                frame@.sync_sets,
                rs.skip(k as int),
            ) == spec_apply_memberships(
                crate::figure::groups_model(figure.sync_sets@),
                frame@.sync_sets,
                rs.skip(k + 1),
            ));
        }
        k += 1;
    }
}

/// Every entry a push run makes carries its timestamp.
proof fn lemma_rev_pairs_times(time: u64, vs: Seq<Vertex>)
    ensures
        crate::content::spec_rev_pairs(time, vs).len() == vs.len(),
        forall|i: int|
            0 <= i < vs.len() ==> (#[trigger] crate::content::spec_rev_pairs(time, vs)[i]).0
                == time,
    decreases vs.len(),
{
    if vs.len() > 0 {
        lemma_rev_pairs_times(time, vs.skip(1));
    }
}

/// Decodes one datagram and applies it to the scene, as one call.
pub fn decode(figure: &mut crate::figure::Figure, time: u64, buf: &Vec<u8>) -> (frame: Frame)
    requires
        old(figure).wf(),
        time_fresh(*old(figure), time),
    ensures
        final(figure).wf(),
        frame@ == spec_decode(buf@),
        time_fresh(*final(figure), time),
        final(figure).print_time == old(figure).print_time,
        match spec_decode(buf@).camera {
            Some(c) => (final(figure).view, final(figure).auto_view) == crate::figure::spec_set_view(old(figure).view, old(figure).auto_view, c.x, c.y, c.scale_x, c.scale_y),
            None => final(figure).view == old(figure).view && final(figure).auto_view == old(figure).auto_view,
        },
        final(figure).visible_layers.deep_view() == spec_apply_layers(old(figure).visible_layers.deep_view(), spec_decode(buf@).layers),
        crate::figure::topics_model(final(figure).topics@) == spec_apply_records(
            crate::figure::topics_model(old(figure).topics@),
            time,
            spec_decode(buf@).layers,
            spec_decode(buf@).topics,
        ),
        crate::figure::groups_model(final(figure).sync_sets@) == spec_apply_memberships(
            spec_apply_lifetimes(
                crate::figure::groups_model(old(figure).sync_sets@),
                spec_decode(buf@).sync_sets,
            ),
            spec_decode(buf@).sync_sets,
            spec_decode(buf@).topics,
        ),
{
    let frame = parse_frame(buf);
    proof {
        lemma_decode_indices_ok(buf@);
    }
    apply_frame(figure, time, &frame);
    frame
}

/// What decoding yields always has in-range table references: the decoder
/// validates them against the tables of the same frame.
pub proof fn lemma_decode_indices_ok(s: Seq<u8>)
    ensures
        frame_indices_ok(spec_decode(s)),
{
    let fv = spec_decode(s);
    if s.len() >= 16 && table_valid(s, 16, 8) {
        let off1 = table_end(s, 16);
        if table_valid(s, off1, 1) && layers_ok(s, off1) {
            let off2 = table_end(s, off1);
            lemma_parse_topics_indices(s, off2, fv.sync_sets.len() as int, fv.layers.len() as int);
        } else {
            assert(fv.topics.len() == 0);
        }
    }
}

proof fn lemma_parse_topics_indices(s: Seq<u8>, off: int, nsync: int, nlayer: int)
    requires
        0 <= nsync,
        0 <= nlayer,
    ensures
        forall|i: int|
            0 <= i < parse_topics(s, off, nsync, nlayer).len() ==> (#[trigger] parse_topics(
                s,
                off,
                nsync,
                nlayer,
            )[i]).sync_set_index <= nsync && parse_topics(s, off, nsync, nlayer)[i].layer_index
                <= nlayer,
    decreases s.len() - off,
{
    if off >= 0 {
        let step = parse_topic_step(s, off, nsync, nlayer);
        match step {
            (None, _) => {},
            (Some(rec), None) => {},
            (Some(rec), Some(next)) => {
                if off < next <= s.len() {
                    lemma_parse_topics_indices(s, next, nsync, nlayer);
                    assert forall|i: int|
                        0 <= i < parse_topics(s, off, nsync, nlayer).len() implies (
                    #[trigger] parse_topics(s, off, nsync, nlayer)[i]).sync_set_index <= nsync
                        && parse_topics(s, off, nsync, nlayer)[i].layer_index <= nlayer by {
                        if i > 0 {
                            assert(parse_topics(s, off, nsync, nlayer)[i] == parse_topics(
                                s,
                                next,
                                nsync,
                                nlayer,
                            )[i - 1]);
                        }
                    }
                }
            },
        }
    }
}

} // verus!

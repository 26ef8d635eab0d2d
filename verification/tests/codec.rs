//! The wire codec: round trips, truncation, and the sample layout.

use monitor_tool::bytes::read_u16;
use monitor_tool::bytes::read_u32;
use monitor_tool::bytes::read_u64;
use monitor_tool::bytes::push_u16;
use monitor_tool::bytes::push_u32;
use monitor_tool::bytes::push_u64;
use monitor_tool::decode::decode;
use monitor_tool::decode::parse_frame;
use monitor_tool::decode::Layers;
use monitor_tool::decode::SyncSets;
use monitor_tool::encode::Encoder;
use monitor_tool::encode::TopicEncoder;
use monitor_tool::figure::Figure;
use monitor_tool::frame::Visibility;
use monitor_tool::vertex::Shape;
use monitor_tool::vertex::Vertex;

fn name(s: &str) -> Vec<u8> {
    s.as_bytes().to_vec()
}

fn vertex(x: f32, y: f32, level: u8) -> Vertex {
    Vertex {
        x: x.to_bits(),
        y: y.to_bits(),
        level,
        alpha: 255,
        shape: Shape::Arrow,
        extra: f32::NAN.to_bits(),
    }
}

#[test]
fn integers_round_trip() {
    let mut buf: Vec<u8> = Vec::new();
    push_u16(&mut buf, 0xbeef);
    push_u32(&mut buf, 0xdead_beef);
    push_u64(&mut buf, 0x0123_4567_89ab_cdef);
    assert_eq!(buf.len(), 14);
    assert_eq!(read_u16(&buf, 0), 0xbeef);
    assert_eq!(read_u32(&buf, 2), 0xdead_beef);
    assert_eq!(read_u64(&buf, 6), 0x0123_4567_89ab_cdef);
}

#[test]
fn wire_round_trip() {
    let mut enc = Encoder::new();
    enc.sync_set(&name("g"), &vec![name("t0")], Some(2_000_000_000));
    enc.layer(&name("l"), &vec![name("t0")], Some(true));
    let mut t = TopicEncoder::new();
    t.set_capacity(100);
    t.push(vertex(1.5, -2.5, 3));
    t.push(vertex(4.0, 8.0, 9));
    enc.with_topic(&name("t0"), &t);
    let bytes = enc.encode();

    let frame = parse_frame(&bytes);
    assert_eq!(frame.sync_sets.len(), 1);
    assert_eq!(frame.sync_sets[0].name, name("g"));
    assert_eq!(frame.sync_sets[0].life_time, 2_000_000_000);
    assert_eq!(frame.layers.len(), 1);
    assert_eq!(frame.layers[0].name, name("l"));
    assert_eq!(frame.layers[0].visibility, Visibility::Visible);
    assert_eq!(frame.topics.len(), 1);
    let rec = &frame.topics[0];
    assert_eq!(rec.name, name("t0"));
    assert_eq!(rec.sync_set_index, 1);
    assert_eq!(rec.layer_index, 1);
    assert_eq!(rec.capacity, 100);
    assert!(!rec.clear);
    assert_eq!(rec.vertices, vec![vertex(1.5, -2.5, 3), vertex(4.0, 8.0, 9)]);
}

#[test]
fn decode_applies_to_the_scene() {
    let mut enc = Encoder::new();
    enc.sync_set(&name("g"), &vec![name("t0")], Some(2_000_000_000));
    enc.layer(&name("l"), &vec![name("t0")], Some(true));
    let mut t = TopicEncoder::new();
    t.set_capacity(100);
    t.push(vertex(1.5, -2.5, 3));
    t.push(vertex(4.0, 8.0, 9));
    enc.with_topic(&name("t0"), &t);
    let bytes = enc.encode();

    let mut f = Figure::new();
    decode(&mut f, 42, &bytes);
    assert_eq!(f.visible_layers, vec![name("l")]);
    assert_eq!(f.sync_sets.len(), 1);
    assert_eq!(f.sync_sets[0].name, name("g"));
    assert_eq!(f.sync_sets[0].life_time, 2_000_000_000);
    assert_eq!(f.sync_sets[0].members, vec![name("t0")]);
    let ti = f.put_topic(&name("t0"));
    let c = &f.topics[ti].content;
    assert_eq!(c.layer(), &name("l"));
    assert_eq!(c.capacity(), 100);
    assert_eq!(c.len(), 2);
    // newest first, each stamped with the arrival time
    assert_eq!(c.get(0), (42, vertex(4.0, 8.0, 9)));
    assert_eq!(c.get(1), (42, vertex(1.5, -2.5, 3)));
}

#[test]
fn truncated_vertex_run_applies_nothing_of_it() {
    let mut enc = Encoder::new();
    let mut t = TopicEncoder::new();
    t.set_capacity(7);
    for i in 0..5 {
        t.push(vertex(i as f32, 0.0, 0));
    }
    enc.with_topic(&name("t0"), &t);
    let whole = enc.encode();
    // keep the record's header and only 3 of the 5 claimed samples
    let bytes: Vec<u8> = whole[..whole.len() - 32].to_vec();

    let frame = parse_frame(&bytes);
    assert_eq!(frame.topics.len(), 1);
    let rec = &frame.topics[0];
    assert_eq!(rec.name, name("t0"));
    assert_eq!(rec.capacity, 7);
    assert_eq!(rec.vertices.len(), 0);

    let mut f = Figure::new();
    decode(&mut f, 0, &bytes);
    let ti = f.put_topic(&name("t0"));
    assert_eq!(f.topics[ti].content.capacity(), 7);
    assert_eq!(f.topics[ti].content.len(), 0);
}

#[test]
fn short_datagram_applies_nothing() {
    let frame = parse_frame(&vec![1, 2, 3]);
    assert!(frame.camera.is_none());
    assert_eq!(frame.sync_sets.len(), 0);
    assert_eq!(frame.layers.len(), 0);
    assert_eq!(frame.topics.len(), 0);
}

#[test]
fn camera_rides_at_the_head_of_the_frame() {
    let mut enc = Encoder::new();
    enc.camera.x = 2.0f32.to_bits();
    enc.camera.y = 3.0f32.to_bits();
    enc.camera.scale_x = 0.0f32.to_bits();
    enc.camera.scale_y = 0.0f32.to_bits();
    let bytes = enc.encode();
    assert_eq!(bytes.len(), 20);

    let mut f = Figure::new();
    decode(&mut f, 0, &bytes);
    assert_eq!(f32::from_bits(f.view.center_x), 2.0);
    assert_eq!(f32::from_bits(f.view.center_y), 3.0);
    assert!(f.auto_view);
}

#[test]
fn bad_shape_byte_drops_the_whole_sample_run() {
    let mut enc = Encoder::new();
    let mut t = TopicEncoder::new();
    t.set_focus(4);
    t.push(vertex(1.0, 2.0, 0));
    enc.with_topic(&name("t0"), &t);
    let mut bytes = enc.encode();
    // corrupt the sample's shape byte, 5 bytes from the frame's end
    let at = bytes.len() - 5;
    bytes[at] = 0x77;

    let frame = parse_frame(&bytes);
    assert_eq!(frame.topics.len(), 1);
    assert_eq!(frame.topics[0].focus, 4);
    assert_eq!(frame.topics[0].vertices.len(), 0);
}

#[test]
fn table_views_count_their_entries() {
    let mut enc = Encoder::new();
    enc.sync_set(&name("g"), &vec![name("t0")], Some(7));
    enc.layer(&name("l"), &Vec::new(), Some(false));
    let frame = parse_frame(&enc.encode());
    let syncs = SyncSets(frame.sync_sets);
    assert_eq!(syncs.len(), 1);
    assert_eq!(syncs.get(0).name, name("g"));
    assert_eq!(syncs.get(0).life_time, 7);
    let layers = Layers(frame.layers);
    assert_eq!(layers.len(), 1);
    assert_eq!(layers.get(0).name, name("l"));
}

#[test]
fn assert_size() {
    assert_eq!(16, std::mem::size_of::<Vertex>());
}

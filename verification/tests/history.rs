//! Per-topic histories: capacity eviction, age eviction, colors, and the
//! bounds cache.

use monitor_tool::aabb::AABB;
use monitor_tool::content::TopicContent;
use monitor_tool::vertex::Shape;
use monitor_tool::vertex::Vertex;

fn arrow(x: f32, y: f32) -> Vertex {
    Vertex {
        x: x.to_bits(),
        y: y.to_bits(),
        level: 0,
        alpha: 255,
        shape: Shape::Arrow,
        extra: f32::NAN.to_bits(),
    }
}

fn push_one(t: &mut TopicContent, time: u64, v: Vertex) {
    t.extend_from_slice(time, &vec![v]);
}

#[test]
fn capacity_keeps_the_newest() {
    let mut t = TopicContent::new();
    t.set_capacity(3);
    for i in 0u64..4 {
        push_one(&mut t, i, arrow(i as f32, 0.0));
    }
    assert_eq!(t.len(), 3);
    let newest_to_oldest: Vec<f32> = (0..t.len())
        .map(|i| f32::from_bits(t.get(i).1.x))
        .collect();
    assert_eq!(newest_to_oldest, vec![3.0, 2.0, 1.0]);
}

#[test]
fn shrinking_capacity_truncates() {
    let mut t = TopicContent::new();
    for i in 0u64..5 {
        push_one(&mut t, i, arrow(i as f32, 0.0));
    }
    t.set_capacity(2);
    assert_eq!(t.len(), 2);
    assert_eq!(f32::from_bits(t.get(0).1.x), 4.0);
    assert_eq!(f32::from_bits(t.get(1).1.x), 3.0);
}

#[test]
fn age_eviction_drops_strictly_older() {
    let mut t = TopicContent::new();
    for i in 0u64..5 {
        push_one(&mut t, 100 + i, arrow(i as f32, 0.0));
    }
    t.sync(102);
    assert_eq!(t.len(), 3);
    assert_eq!(t.begin(), Some(102));
}

#[test]
fn age_eviction_is_monotone() {
    let mut t = TopicContent::new();
    for i in 0u64..5 {
        push_one(&mut t, 100 + i, arrow(i as f32, 0.0));
    }
    t.sync(103);
    let after_first: Vec<(u64, Vertex)> = t.snapshot();
    t.sync(101);
    assert_eq!(t.snapshot(), after_first);
}

#[test]
fn colors_default_to_black() {
    let mut t = TopicContent::new();
    assert_eq!(t.color_of(7), 0xff00_0000);
    t.set_color(7, 0xff12_3456);
    assert_eq!(t.color_of(7), 0xff12_3456);
}

#[test]
fn cache_round_trip_redraws_only_once() {
    let mut t = TopicContent::new();
    push_one(&mut t, 0, arrow(1.0, 2.0));
    push_one(&mut t, 1, arrow(3.0, 4.0));
    // out of Invalid: a scan caches the box and costs a redraw
    assert!(t.needs_scan());
    let boxes: Vec<AABB> = (0..t.window_len())
        .map(|i| {
            let v = t.window_vertices()[i];
            AABB::from_point(v.x, v.y)
        })
        .collect();
    let first = t.aabb_scanned(&boxes).unwrap();
    assert!(!t.render_valid());
    t.mark_rendered();
    // the cached box answers without a scan
    assert!(!t.needs_scan());
    assert_eq!(t.aabb_cached().unwrap(), first);
    assert!(t.render_valid());
    // a mutation downgrades the box and drops the geometry once
    t.redraw();
    t.mark_rendered();
    push_one(&mut t, 2, arrow(1.0, 2.0));
    assert!(t.needs_scan());
    assert!(!t.render_valid());
    t.mark_rendered();
    // a rescan that reproduces the same box keeps the fresh geometry
    let boxes: Vec<AABB> = t
        .window_vertices()
        .iter()
        .map(|v| AABB::from_point(v.x, v.y))
        .collect();
    let second = t.aabb_scanned(&boxes).unwrap();
    assert_eq!(second, first);
    assert!(t.render_valid());
}

#[test]
fn empty_scan_caches_emptiness() {
    let mut t = TopicContent::new();
    assert!(t.needs_scan());
    assert!(t.aabb_scanned(&Vec::new()).is_none());
    assert!(!t.needs_scan());
    assert!(t.aabb_cached().is_none());
}

#[test]
fn focus_window_caps_the_scan() {
    let mut t = TopicContent::new();
    for i in 0u64..5 {
        push_one(&mut t, i, arrow(i as f32, 0.0));
    }
    t.set_focus(2);
    assert_eq!(t.window_len(), 2);
    let vs = t.window_vertices();
    assert_eq!(f32::from_bits(vs[0].x), 4.0);
    assert_eq!(f32::from_bits(vs[1].x), 3.0);
    t.set_focus(0);
    assert_eq!(t.window_len(), 5);
}

//! The scene: visibility, camera sentinels, group membership, and the
//! joint eviction pass.

use monitor_tool::figure::check_visible;
use monitor_tool::figure::Figure;
use monitor_tool::vertex::Shape;
use monitor_tool::vertex::Vertex;

fn arrow(x: f32, y: f32) -> Vertex {
    Vertex {
        x: x.to_bits(),
        y: y.to_bits(),
        level: 0,
        alpha: 255,
        shape: Shape::Arrow,
        extra: f32::NAN.to_bits(),
    }
}

fn name(s: &str) -> Vec<u8> {
    s.as_bytes().to_vec()
}

#[test]
fn empty_layer_tag_is_always_visible() {
    let set = vec![name("roads")];
    assert!(check_visible(&set, &name("")));
    assert!(check_visible(&set, &name("roads")));
    assert!(!check_visible(&set, &name("walls")));
}

#[test]
fn layers_toggle() {
    let mut f = Figure::new();
    f.set_visible(&name("a"), true);
    f.set_visible(&name("b"), true);
    f.set_visible(&name("a"), true);
    assert_eq!(f.visible_layers.len(), 2);
    f.set_visible(&name("a"), false);
    assert_eq!(f.visible_layers.len(), 1);
    assert_eq!(f.visible_layers[0], name("b"));
}

#[test]
fn camera_nan_fields_leave_the_view() {
    let mut f = Figure::new();
    let before = f.view;
    f.set_view(f32::NAN.to_bits(), f32::NAN.to_bits(), f32::NAN.to_bits(), f32::NAN.to_bits());
    assert_eq!(f.view, before);
    assert!(!f.auto_view);
    f.set_view(2.0f32.to_bits(), 3.0f32.to_bits(), f32::NAN.to_bits(), f32::NAN.to_bits());
    assert_eq!(f32::from_bits(f.view.center_x), 2.0);
    assert_eq!(f32::from_bits(f.view.center_y), 3.0);
}

#[test]
fn zero_scale_turns_auto_view_on() {
    let mut f = Figure::new();
    f.set_view(f32::NAN.to_bits(), f32::NAN.to_bits(), 0.0f32.to_bits(), 0.0f32.to_bits());
    assert!(f.auto_view);
    f.set_view(f32::NAN.to_bits(), f32::NAN.to_bits(), 4.0f32.to_bits(), 2.0f32.to_bits());
    assert!(!f.auto_view);
    assert_eq!(f32::from_bits(f.view.scale), 2.0);
}

#[test]
fn reassigning_a_topic_moves_it_between_groups() {
    let mut f = Figure::new();
    f.set_life_time(&name("g1"), 5);
    f.set_life_time(&name("g2"), 7);
    f.update_sync_set(&name("g1"), &name("t"));
    assert!(f.sync_sets[0].members.contains(&name("t")));
    f.update_sync_set(&name("g2"), &name("t"));
    assert!(!f.sync_sets[0].members.contains(&name("t")));
    assert!(f.sync_sets[1].members.contains(&name("t")));
    f.update_sync_set(&name(""), &name("t"));
    assert!(!f.sync_sets[1].members.contains(&name("t")));
}

#[test]
fn joint_eviction_takes_the_later_deadline() {
    let mut f = Figure::new();
    // two topics in one group with a 5-unit age limit
    f.set_life_time(&name("g"), 5);
    f.update_sync_set(&name("g"), &name("a"));
    f.update_sync_set(&name("g"), &name("b"));
    let ai = f.put_topic(&name("a"));
    for t in 100u64..=105 {
        f.topics[ai].content.extend_from_slice(t, &vec![arrow(t as f32, 0.0)]);
    }
    let bi = f.put_topic(&name("b"));
    for t in 90u64..=105 {
        f.topics[bi].content.extend_from_slice(t, &vec![arrow(t as f32, 0.0)]);
    }
    // age deadline 108 - 5 = 103; count deadline min(100, 90) = 90; the
    // later one wins, so both topics drop everything older than 103
    f.sync(108);
    let ai = f.put_topic(&name("a"));
    assert_eq!(f.topics[ai].content.begin(), Some(103));
    let bi = f.put_topic(&name("b"));
    assert_eq!(f.topics[bi].content.begin(), Some(103));
}

#[test]
fn zero_life_time_groups_use_only_the_count_deadline() {
    let mut f = Figure::new();
    f.set_life_time(&name("g"), 9);
    f.set_life_time(&name("g"), 0);
    f.update_sync_set(&name("g"), &name("a"));
    let ai = f.put_topic(&name("a"));
    for t in 100u64..=102 {
        f.topics[ai].content.extend_from_slice(t, &vec![arrow(t as f32, 0.0)]);
    }
    f.sync(1_000);
    let ai = f.put_topic(&name("a"));
    // the count deadline equals the oldest sample, which is not older
    // than itself, so nothing leaves
    assert_eq!(f.topics[ai].content.len(), 3);
}

#[test]
fn auto_fit_merges_only_visible_cached_topics() {
    let mut f = Figure::new();
    let ti = f.put_topic(&name("t"));
    f.topics[ti].content.extend_from_slice(0, &vec![arrow(1.0, 2.0), arrow(5.0, -3.0)]);
    let boxes: Vec<monitor_tool::aabb::AABB> = f.topics[ti]
        .content
        .window_vertices()
        .iter()
        .map(|v| monitor_tool::aabb::AABB::from_point(v.x, v.y))
        .collect();
    f.topics[ti].content.aabb_scanned(&boxes);
    let merged = f.merge_visible_bounds().unwrap();
    assert_eq!(f32::from_bits(merged.min_x), 1.0);
    assert_eq!(f32::from_bits(merged.max_x), 5.0);
    assert_eq!(f32::from_bits(merged.min_y), -3.0);
    assert_eq!(f32::from_bits(merged.max_y), 2.0);
    // a fitted camera takes the supplied center, and the scale only when
    // it is finite
    f.set_view_fitted(3.0f32.to_bits(), (-0.5f32).to_bits(), f32::INFINITY.to_bits());
    assert_eq!(f32::from_bits(f.view.center_x), 3.0);
    assert_eq!(f32::from_bits(f.view.center_y), -0.5);
    assert_eq!(f32::from_bits(f.view.scale), 1.0);
    f.set_view_fitted(3.0f32.to_bits(), (-0.5f32).to_bits(), 2.5f32.to_bits());
    assert_eq!(f32::from_bits(f.view.scale), 2.5);
}

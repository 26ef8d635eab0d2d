//! Bounding boxes: growth, merging, and shape-aware containment.

use monitor_tool::aabb::AABB;
use monitor_tool::vertex::classify_vertex;
use monitor_tool::vertex::ties_to_previous;
use monitor_tool::vertex::Item;
use monitor_tool::aabb::CircleProbe;
use monitor_tool::vertex::Shape;
use monitor_tool::vertex::Vertex;

fn arrow(x: f32, y: f32) -> Vertex {
    Vertex {
        x: x.to_bits(),
        y: y.to_bits(),
        level: 0,
        alpha: 255,
        shape: Shape::Arrow,
        extra: f32::NAN.to_bits(),
    }
}

fn circle(x: f32, y: f32, r: f32) -> Vertex {
    Vertex {
        x: x.to_bits(),
        y: y.to_bits(),
        level: 0,
        alpha: 255,
        shape: Shape::Circle,
        extra: r.to_bits(),
    }
}

fn boxed(min_x: f32, max_x: f32, min_y: f32, max_y: f32) -> AABB {
    AABB {
        min_x: min_x.to_bits(),
        max_x: max_x.to_bits(),
        min_y: min_y.to_bits(),
        max_y: max_y.to_bits(),
    }
}

/// The probe a circle containment test needs, computed with real binary32
/// arithmetic, as the front end does.
fn probe_for(b: &AABB, v: &Vertex) -> CircleProbe {
    let (x, y, r) = (
        f32::from_bits(v.x),
        f32::from_bits(v.y),
        f32::from_bits(v.extra),
    );
    let corner = |cx: f32, cy: f32| (cx - x).powi(2) + (cy - y).powi(2) <= r.powi(2);
    CircleProbe {
        x_lo: (x - r).to_bits(),
        x_hi: (x + r).to_bits(),
        y_lo: (y - r).to_bits(),
        y_hi: (y + r).to_bits(),
        corner_min_min: corner(f32::from_bits(b.min_x), f32::from_bits(b.min_y)),
        corner_min_max: corner(f32::from_bits(b.min_x), f32::from_bits(b.max_y)),
        corner_max_min: corner(f32::from_bits(b.max_x), f32::from_bits(b.min_y)),
        corner_max_max: corner(f32::from_bits(b.max_x), f32::from_bits(b.max_y)),
    }
}

#[test]
fn grows_over_points() {
    let pts = vec![
        (1.0f32.to_bits(), 2.0f32.to_bits()),
        ((-3.0f32).to_bits(), 5.0f32.to_bits()),
        (4.0f32.to_bits(), (-1.0f32).to_bits()),
    ];
    let b = AABB::foreach(&pts).unwrap();
    assert_eq!(f32::from_bits(b.min_x), -3.0);
    assert_eq!(f32::from_bits(b.max_x), 4.0);
    assert_eq!(f32::from_bits(b.min_y), -1.0);
    assert_eq!(f32::from_bits(b.max_y), 5.0);
    assert!(AABB::foreach(&Vec::new()).is_none());
}

#[test]
fn merge_is_commutative_and_associative() {
    let a = boxed(0.0, 1.0, 0.0, 1.0);
    let b = boxed(-2.0, 0.5, 0.25, 3.0);
    let c = boxed(0.125, 7.0, -4.0, 0.0);
    assert!(a.merge(b).same_box(&b.merge(a)));
    assert_eq!(a.merge(b).merge(c), a.merge(b.merge(c)));
}

#[test]
fn box_from_arrows_contains_them() {
    let vs = vec![arrow(1.0, 2.0), arrow(-3.0, 5.0), arrow(4.0, -1.0)];
    let pts: Vec<(u32, u32)> = vs.iter().map(|v| (v.x, v.y)).collect();
    let b = AABB::foreach(&pts).unwrap();
    for v in &vs {
        assert!(b.contains(v));
    }
    assert!(!b.contains(&arrow(10.0, 0.0)));
}

#[test]
fn circle_on_edge_with_zero_radius_is_contained() {
    let b = boxed(0.0, 4.0, 0.0, 4.0);
    let v = circle(0.0, 2.0, 0.0);
    assert!(b.contains_circle(&v, probe_for(&b, &v)));
}

#[test]
fn circle_fully_outside_is_not_contained() {
    let b = boxed(0.0, 4.0, 0.0, 4.0);
    // center + radius still short of the box's left edge
    let left = circle(-3.0, 2.0, 1.0);
    assert!(!b.contains_circle(&left, probe_for(&b, &left)));
    // center - radius still past the box's top edge
    let above = circle(2.0, 8.0, 2.0);
    assert!(!b.contains_circle(&above, probe_for(&b, &above)));
    // center - radius still past the box's right edge
    let right = circle(7.0, 2.0, 1.5);
    assert!(!b.contains_circle(&right, probe_for(&b, &right)));
    // center + radius still short of the box's bottom edge
    let below = circle(2.0, -4.0, 3.0);
    assert!(!b.contains_circle(&below, probe_for(&b, &below)));
}

#[test]
fn circle_overlapping_edge_is_contained() {
    let b = boxed(0.0, 4.0, 0.0, 4.0);
    let v = circle(-1.0, 2.0, 1.5);
    assert!(b.contains_circle(&v, probe_for(&b, &v)));
    let corner = circle(4.5, 4.5, 1.0);
    assert!(b.contains_circle(&corner, probe_for(&b, &corner)));
    let corner_far = circle(5.0, 5.0, 1.0);
    assert!(!b.contains_circle(&corner_far, probe_for(&b, &corner_far)));
}

#[test]
fn samples_classify_by_shape_and_extra() {
    // an arrow with a NaN heading is a plain point; any other heading draws
    assert_eq!(classify_vertex(&arrow(0.0, 0.0)), Item::Point);
    let headed = Vertex { extra: 1.5f32.to_bits(), ..arrow(0.0, 0.0) };
    assert_eq!(classify_vertex(&headed), Item::Arrow(1.5f32.to_bits()));
    // a circle draws only with a positive normal radius
    assert_eq!(classify_vertex(&circle(0.0, 0.0, 2.0)), Item::Circle(2.0f32.to_bits()));
    assert_eq!(classify_vertex(&circle(0.0, 0.0, 0.0)), Item::Hidden);
    assert_eq!(classify_vertex(&circle(0.0, 0.0, -2.0)), Item::Hidden);
    assert_eq!(classify_vertex(&circle(0.0, 0.0, 1e-40)), Item::Hidden);
    assert_eq!(classify_vertex(&circle(0.0, 0.0, f32::NAN)), Item::Hidden);
    assert_eq!(classify_vertex(&circle(0.0, 0.0, f32::INFINITY)), Item::Hidden);
    // only a nonzero opacity ties a segment to the predecessor
    assert!(ties_to_previous(&arrow(0.0, 0.0)));
    assert!(!ties_to_previous(&Vertex { alpha: 0, ..arrow(0.0, 0.0) }));
}

#[test]
fn intersect_on_touching_boxes() {
    let a = boxed(0.0, 1.0, 0.0, 1.0);
    let b = boxed(1.0, 2.0, 1.0, 2.0);
    let c = boxed(1.5, 2.0, 0.0, 0.5);
    assert!(a.intersect(b));
    assert!(!a.intersect(c));
}

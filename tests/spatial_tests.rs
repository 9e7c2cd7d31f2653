use cleoselene::spatial::{tag_hash, EntityKind, SpatialDb};
use std::collections::hash_map::DefaultHasher;
use std::hash::{Hash, Hasher};

fn sorted(mut v: Vec<u64>) -> Vec<u64> {
    v.sort();
    v
}

#[test]
fn tag_hash_matches_str_hash() {
    for tag in ["enemy", "wall", ""] {
        let mut h = DefaultHasher::new();
        tag.hash(&mut h);
        assert_eq!(tag_hash(tag), h.finish());
    }
    assert_ne!(tag_hash("enemy"), tag_hash("wall"));
}

#[test]
fn spatial_round_trip_scenario() {
    let mut db = SpatialDb::new(16);
    let id = db.add_circle(10, 10, 5, "enemy");
    assert_eq!(id, 1);
    assert_eq!(db.query_range(12, 10, 1, Some("enemy")), vec![id]);
    db.update_position(id, 100, 100);
    assert!(db.query_range(12, 10, 10, Some("enemy")).is_empty());
    assert_eq!(db.query_range(100, 100, 1, Some("enemy")), vec![id]);
    assert_eq!(db.get_position(id), Some((100, 100)));
}

#[test]
fn raycast_against_wall() {
    let mut db = SpatialDb::new(16);
    let wall = db.add_segment(0, 0, 0, 10, "wall");
    // angle 0, max distance 100 from (-5, 5): the ray ends at (95, 5)
    let hit = db.cast_ray(-5, 5, 95, 5, Some("wall")).unwrap();
    assert_eq!(hit.id, wall);
    assert_eq!(hit.num * 100, 5 * hit.den);
    let hit_x = -5.0 + 100.0 * (hit.num as f64) / (hit.den as f64);
    assert!((hit_x - 0.0).abs() < 1e-9);
}

#[test]
fn raycast_picks_nearest() {
    let mut db = SpatialDb::new(8);
    let far = db.add_circle(50, 0, 5, "t");
    let near = db.add_circle(20, 0, 5, "t");
    let _other = db.add_circle(10, 0, 2, "u");
    let hit = db.cast_ray(0, 0, 100, 0, Some("t")).unwrap();
    assert_eq!(hit.id, near);
    assert_eq!(hit.num * 100, 15 * hit.den);
    let any = db.cast_ray(0, 0, 100, 0, None).unwrap();
    assert_eq!(any.id, 3);
    db.remove(near);
    assert_eq!(db.cast_ray(0, 0, 100, 0, Some("t")).unwrap().id, far);
}

#[test]
fn zero_length_ray_hits_nothing() {
    let mut db = SpatialDb::new(8);
    db.add_circle(0, 0, 5, "t");
    db.add_segment(-3, -3, 3, 3, "w");
    assert!(db.cast_ray(5, 0, 5, 0, None).is_none());
    assert!(db.cast_ray(0, 0, 0, 0, None).is_none());
}

#[test]
fn ray_missing_everything_is_none() {
    let mut db = SpatialDb::new(8);
    db.add_circle(0, 50, 5, "t");
    assert!(db.cast_ray(0, 0, 100, 0, None).is_none());
}

#[test]
fn removing_twice_is_a_no_op() {
    let mut db = SpatialDb::new(10);
    let a = db.add_circle(0, 0, 3, "x");
    let b = db.add_circle(5, 5, 3, "x");
    db.remove(a);
    let after_first = sorted(db.query_rect(-50, -50, 50, 50, None));
    db.remove(a);
    assert_eq!(sorted(db.query_rect(-50, -50, 50, 50, None)), after_first);
    assert_eq!(after_first, vec![b]);
    assert_eq!(db.get_position(a), None);
    db.remove(999);
    assert_eq!(sorted(db.query_rect(-50, -50, 50, 50, None)), vec![b]);
}

#[test]
fn update_twice_matches_once() {
    let mut db = SpatialDb::new(10);
    let s = db.add_segment(0, 0, 30, 0, "w");
    db.update_position(s, 5, 5);
    let once = db.get_entity_info(s);
    let q1 = sorted(db.query_rect(0, 0, 40, 10, None));
    db.update_position(s, 5, 5);
    assert_eq!(db.get_entity_info(s), once);
    assert_eq!(sorted(db.query_rect(0, 0, 40, 10, None)), q1);
    assert_eq!(once, Some((5, 5, EntityKind::Segment { x2: 35, y2: 5 })));
    db.update_position(77, 1, 1);
    assert_eq!(db.get_entity_info(77), None);
}

#[test]
fn zero_length_segment_acts_as_point() {
    let mut db = SpatialDb::new(4);
    let p = db.add_segment(10, 10, 10, 10, "p");
    assert_eq!(db.query_range(13, 14, 5, None), vec![p]);
    assert!(db.query_range(13, 14, 4, None).is_empty());
}

#[test]
fn range_against_segment_interior() {
    let mut db = SpatialDb::new(4);
    let s = db.add_segment(0, 0, 20, 0, "w");
    assert_eq!(db.query_range(10, 3, 3, Some("w")), vec![s]);
    assert!(db.query_range(10, 3, 2, Some("w")).is_empty());
    assert!(db.query_range(10, 3, 3, Some("enemy")).is_empty());
    assert_eq!(db.query_range(23, 4, 5, None), vec![s]);
}

#[test]
fn query_rect_results_are_distinct() {
    let mut db = SpatialDb::new(2);
    let big = db.add_circle(0, 0, 20, "big");
    let small = db.add_circle(30, 30, 1, "small");
    let r = db.query_rect(-40, -40, 40, 40, None);
    assert_eq!(sorted(r.clone()), vec![big, small]);
    assert_eq!(db.query_rect(25, 25, 35, 35, Some("small")), vec![small]);
    assert!(db.query_rect(40, 40, -40, -40, None).is_empty());
    let q = db.query_range(0, 0, 50, None);
    assert_eq!(sorted(q), vec![big, small]);
}

#[test]
fn ids_are_never_reused() {
    let mut db = SpatialDb::new(5);
    let a = db.add_circle(0, 0, 1, "x");
    db.remove(a);
    let b = db.add_circle(0, 0, 1, "x");
    assert_eq!(a, 1);
    assert_eq!(b, 2);
}

#[test]
fn extreme_coordinates_stay_exact() {
    let mut db = SpatialDb::new(u16::MAX);
    let s = db.add_segment(i16::MIN, i16::MIN, i16::MAX, i16::MAX, "w");
    let c = db.add_circle(i16::MAX, i16::MIN, u16::MAX, "c");
    db.update_position(s, i16::MAX, i16::MAX);
    assert_eq!(
        db.get_entity_info(s),
        Some((i16::MAX, i16::MAX, EntityKind::Segment { x2: 3 * i16::MAX as i32 + 1, y2: 3 * i16::MAX as i32 + 1 }))
    );
    let hits = sorted(db.query_range(i16::MAX, i16::MAX, u16::MAX, None));
    assert_eq!(hits, vec![s, c]);
    let ray = db.cast_ray(i16::MIN, 0, i16::MAX, 0, Some("c")).unwrap();
    assert_eq!(ray.id, c);
    assert!(ray.num >= 0 && ray.num <= ray.den);
    db.remove(s);
    db.remove(c);
    assert!(db.query_rect(i16::MIN, i16::MIN, i16::MAX, i16::MAX, None).is_empty());
}

#[test]
fn ray_starting_inside_circle_misses_it() {
    let mut db = SpatialDb::new(4);
    db.add_circle(0, 0, 6, "c");
    // heading left from (5, 3) for one unit: the near root is negative
    assert!(db.cast_ray(5, 3, 4, 3, None).is_none());
    assert!(db.cast_ray(0, 0, 20, 0, None).is_none());
}

#[test]
fn ray_ending_inside_circle_hits_it() {
    let mut db = SpatialDb::new(4);
    let c = db.add_circle(10, 0, 5, "c");
    let hit = db.cast_ray(0, 0, 6, 0, None).unwrap();
    assert_eq!(hit.id, c);
    assert_eq!(hit.num * 6, 5 * hit.den);
    let grazing = db.cast_ray(0, 5, 20, 5, None).unwrap();
    assert_eq!(grazing.id, c);
    assert_eq!(grazing.num * 2, grazing.den);
    assert!(db.cast_ray(0, 0, 4, 0, None).is_none());
}

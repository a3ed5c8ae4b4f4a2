use boids::region::Region;
use boids::vec::Vector2;

#[test]
fn empty_region() {
    let _r = Region::new(Vector2::new(0, 0), Vector2::new(0, 0));
    assert_eq!(_r.is_empty(), true);
    let _r2 = Region::new(Vector2::new(100, 0), Vector2::new(0, 0));
    assert_eq!(_r2.is_empty(), true);
}

#[test]
fn region_intersects() {
    let r_1 = Region::new(Vector2::new(0, 0), Vector2::new(200, 200));
    let r_2 = Region::new(Vector2::new(199, 100), Vector2::new(340, 600));
    assert_eq!(r_1.intersect_with(&r_2), true);
    assert_eq!(r_2.intersect_with(&r_1), true);
}

#[test]
fn region_intersects_1() {
    let r_1 = Region::new(Vector2::new(0, 0), Vector2::new(200, 200));
    let r_2 = Region::new(Vector2::new(100, 100), Vector2::new(340, 600));
    assert_eq!(r_1.intersect_with(&r_2), true);
    assert_eq!(r_2.intersect_with(&r_1), true);
}

#[test]
fn region_intersects_2() {
    let r_1 = Region::new(Vector2::new(0, 0), Vector2::new(200, 200));
    let r_2 = Region::new(Vector2::new(300, 100), Vector2::new(340, 600));
    assert_eq!(r_1.intersect_with(&r_2), false);
    assert_eq!(r_2.intersect_with(&r_1), false);
}

#[test]
fn region_intersects_3() {
    let r_1 = Region::new(Vector2::new(0, 0), Vector2::new(200, 200));
    let r_2 = Region::new(Vector2::new(0, 201), Vector2::new(340, 600));
    assert_eq!(r_1.intersect_with(&r_2), false);
    assert_eq!(r_2.intersect_with(&r_1), false);
}

#[test]
fn region_intersects_itself_unless_degenerate() {
    let r = Region::new(Vector2::new(-5, 3), Vector2::new(7, 9));
    assert!(r.intersect_with(&r));
    let flat = Region::new(Vector2::new(-5, 3), Vector2::new(7, 3));
    assert!(!flat.intersect_with(&flat));
    let point = Region::new(Vector2::new(4, 4), Vector2::new(4, 4));
    assert!(!point.intersect_with(&point));
}

#[test]
fn touching_edges_intersect() {
    let a = Region::new(Vector2::new(0, 0), Vector2::new(10, 10));
    let b = Region::new(Vector2::new(10, 0), Vector2::new(20, 10));
    assert!(a.intersect_with(&b));
}

#[test]
fn contains_excludes_boundary() {
    let r = Region::new(Vector2::new(0, 0), Vector2::new(10, 10));
    assert!(r.contains(Vector2::new(5, 5)));
    assert!(!r.contains(Vector2::new(0, 5)));
    assert!(!r.contains(Vector2::new(5, 10)));
    assert!(!r.contains(Vector2::new(11, 5)));
}

#[test]
fn subdivide_places_point_in_exactly_one_quadrant() {
    let r = Region::new(Vector2::new(0, 0), Vector2::new(100, 80));
    let q = Region::sub_into(&r);
    assert_eq!(q[0], Region::new(Vector2::new(0, 0), Vector2::new(50, 40)));
    assert_eq!(q[1], Region::new(Vector2::new(50, 0), Vector2::new(100, 40)));
    assert_eq!(q[2], Region::new(Vector2::new(0, 40), Vector2::new(50, 80)));
    assert_eq!(q[3], Region::new(Vector2::new(50, 40), Vector2::new(100, 80)));
    for p in [Vector2::new(10, 10), Vector2::new(70, 10), Vector2::new(10, 70), Vector2::new(99, 79)] {
        assert_eq!(q.iter().filter(|c| c.contains(p)).count(), 1);
    }
    // on a dividing line: no quadrant holds it strictly inside
    assert_eq!(q.iter().filter(|c| c.contains(Vector2::new(50, 10))).count(), 0);
}

#[test]
fn center_point_of_region() {
    let r = Region::new(Vector2::new(10, 20), Vector2::new(31, 40));
    assert_eq!(r.get_center_point(), Vector2::new(20, 30));
}

#[test]
fn view_square_around_center() {
    // side d·√2/2 = 14142/2 for d = 10000, halved again for each side
    let r = Region::rect_from_center_with_distance(Vector2::new(0, 0), 10000);
    assert_eq!(r.left_up, Vector2::new(-3535, -3535));
    assert_eq!(r.right_down, Vector2::new(3535, 3535));
    assert_eq!(r.width_height, Vector2::new(7070, 7070));
    assert_eq!(Region::rect_from_center(Vector2::new(0, 0)), r);
}

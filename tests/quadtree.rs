use boids::boid::Boid;
use boids::constants::BOID_SIZE;
use boids::quadtree::{InsertError, QuadTree, MAX_DEPTH};
use boids::region::Region;
use boids::vec::Vector2;

/// A length in pixels, as world units (thousandths of a pixel).
fn milli(v: f32) -> i64 {
    (v * 1000.0).round() as i64
}

fn boid_at(x: i64, y: i64, id: usize) -> Boid {
    Boid::new(Vector2::new(x, y), Vector2::zero(), id)
}

#[test]
fn quadt_get_all_boids_in_boundry() {
    let r = Region::new(Vector2::new(milli(0.0), milli(0.0)), Vector2::new(milli(300.0), milli(300.0)));
    let amount = 10;
    let x = r.right_down.x / amount as i64;
    let y = r.right_down.y / amount as i64;
    let mut q = QuadTree::new(r.clone());

    for i in 0..amount {
        let _ = q.insert(Boid::new(
            Vector2::new(i as i64 * x + milli(BOID_SIZE as f32), i as i64 * y + milli(BOID_SIZE as f32)),
            Vector2::zero(),
            i,
        ));
    }

    assert_eq!(q.count(), amount);
    {
        let mut boids_in_region = vec![];
        q.get_all_boids_in_boundry(&r.clone(), &mut boids_in_region);
        assert_eq!(boids_in_region.len(), amount);
    }
    {
        for i in 0..amount {
            let r = Region::new(
                Vector2::new(milli(0.0), milli(0.0)),
                Vector2::new(i as i64 * x + milli(BOID_SIZE as f32), i as i64 * y + milli(BOID_SIZE as f32)),
            );
            let mut boids_in_region = vec![];
            q.get_all_boids_in_boundry(&r, &mut boids_in_region);
            // the corner boid lies on the query's edge, which is not inside
            assert_eq!(boids_in_region.len(), i);
        }
    }
}

#[test]
fn get_all_boids_in_boundry_view_of_boid() {
    let r = Region::new(Vector2::new(milli(0.0), milli(0.0)), Vector2::new(milli(300.0), milli(300.0)));
    let amount = 10;
    let x = r.right_down.x / amount as i64;
    let y = r.right_down.y / amount as i64;
    let mut q = QuadTree::new(r.clone());
    let mut boids = vec![];

    for i in 0..3 {
        let boid = Boid::new(
            Vector2::new(i as i64 * x + milli(BOID_SIZE as f32), i as i64 * y + milli(BOID_SIZE as f32)),
            Vector2::zero(),
            i,
        );
        boids.push(boid);
        let _ = q.insert(boid);
    }
    {
        let distance = milli(1.0);
        for b in &boids {
            let r = Region::rect_from_center_with_distance(b.position, distance);
            let mut boids_in_region = vec![];
            q.get_all_boids_in_boundry(&r, &mut boids_in_region);
            assert_eq!(boids_in_region.len(), 1);
        }
    }
    {
        let distance = x;
        for b in &boids {
            let r = Region::rect_from_center_with_distance(b.position, distance);
            let mut boids_in_region = vec![];
            q.get_all_boids_in_boundry(&r, &mut boids_in_region);
            assert_eq!(boids_in_region.len(), 1);
        }
    }
}

#[test]
fn fill_below_capacity_returns_all() {
    let world = Region::new(Vector2::new(0, 0), Vector2::new(1000, 1000));
    let mut q = QuadTree::with_capacity(world, 8, MAX_DEPTH);
    for i in 0..8 {
        assert_eq!(q.insert(boid_at(10 + 100 * i as i64, 500, i)), Ok(world));
    }
    let mut found = vec![];
    q.get_all_boids_in_boundry(&world, &mut found);
    assert_eq!(found.len(), 8);
    assert_eq!(q.count(), 8);
}

#[test]
fn one_split_keeps_all_boids() {
    let world = Region::new(Vector2::new(0, 0), Vector2::new(1000, 1000));
    let mut q = QuadTree::with_capacity(world, 4, MAX_DEPTH);
    let spots = [(100, 100), (700, 100), (100, 700), (700, 700), (300, 300)];
    for (i, (x, y)) in spots.iter().enumerate().take(4) {
        assert_eq!(q.insert(boid_at(*x, *y, i)), Ok(world));
    }
    // the fifth splits the full leaf and lands in the upper-left quadrant
    let upper_left = Region::new(Vector2::new(0, 0), Vector2::new(500, 500));
    assert_eq!(q.insert(boid_at(spots[4].0, spots[4].1, 4)), Ok(upper_left));
    let mut found = vec![];
    q.get_all_boids_in_boundry(&world, &mut found);
    assert_eq!(found.len(), 5);
    assert_eq!(q.count(), 5);
    let mut ids: Vec<usize> = found.iter().map(|b| b.id).collect();
    ids.sort();
    assert_eq!(ids, vec![0, 1, 2, 3, 4]);
    assert_eq!(q.leaf_regions(), Region::sub_into(&world).to_vec());
}

#[test]
fn disjoint_query_returns_nothing() {
    let world = Region::new(Vector2::new(0, 0), Vector2::new(1000, 1000));
    let mut q = QuadTree::with_capacity(world, 2, MAX_DEPTH);
    for i in 0..6 {
        let _ = q.insert(boid_at(100 + 50 * i as i64, 100 + 30 * i as i64, i));
    }
    let far = Region::new(Vector2::new(600, 600), Vector2::new(900, 900));
    let mut found = vec![];
    q.get_all_boids_in_boundry(&far, &mut found);
    assert!(found.is_empty());
}

#[test]
fn insert_outside_fails() {
    let world = Region::new(Vector2::new(0, 0), Vector2::new(100, 100));
    let mut q = QuadTree::new(world);
    assert_eq!(q.insert(boid_at(150, 50, 0)), Err(InsertError::OutOfBounds));
    assert_eq!(q.insert(boid_at(0, 50, 1)), Err(InsertError::OutOfBounds));
    assert_eq!(q.count(), 0);
}

#[test]
fn many_at_one_spot_stop_splitting_at_depth() {
    let world = Region::new(Vector2::new(0, 0), Vector2::new(1024, 1024));
    let mut q = QuadTree::with_capacity(world, 2, 3);
    for i in 0..10 {
        let leaf = q.insert(boid_at(100, 100, i)).unwrap();
        assert!(leaf.contains(Vector2::new(100, 100)));
    }
    assert_eq!(q.count(), 10);
}

#[test]
fn horizontal_line_scenario() {
    let world = Region::new(Vector2::new(0, 0), Vector2::new(300, 300));
    let mut q = QuadTree::with_capacity(world, 10, MAX_DEPTH);
    for i in 0..10 {
        assert_eq!(q.insert(boid_at(15 + 30 * i as i64, 150, i)), Ok(world));
    }
    assert_eq!(q.count(), 10);
    let mut all = vec![];
    q.get_all_boids_in_boundry(&world, &mut all);
    assert_eq!(all.len(), 10);
    let left_third = Region::new(Vector2::new(0, 0), Vector2::new(100, 300));
    let mut left = vec![];
    q.get_all_boids_in_boundry(&left_third, &mut left);
    let xs: Vec<i64> = left.iter().map(|b| b.position.x).collect();
    assert_eq!(xs, vec![15, 45, 75]);
}

#[test]
fn leaf_regions_after_split() {
    let world = Region::new(Vector2::new(0, 0), Vector2::new(1000, 1000));
    let mut q = QuadTree::with_capacity(world, 1, MAX_DEPTH);
    assert_eq!(q.leaf_regions(), vec![world]);
    let _ = q.insert(boid_at(100, 100, 0));
    let _ = q.insert(boid_at(900, 900, 1));
    let leaves = q.leaf_regions();
    assert_eq!(leaves.len(), 4);
    assert_eq!(leaves[0], Region::new(Vector2::new(0, 0), Vector2::new(500, 500)));
    assert_eq!(leaves[3], Region::new(Vector2::new(500, 500), Vector2::new(1000, 1000)));
}
